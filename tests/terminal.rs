use vanillachat::terminal::{Keystroke, TermMode, ThreadedIO, DEL, LF};

fn saved() -> TermMode {
    TermMode { lflag: 0o2 | 0o10 | 0o100, vmin: 0, vtime: 5 }
}

fn redraw_of(k: Keystroke) -> Vec<u8> {
    match k {
        Keystroke::Redraw(out) => out,
        Keystroke::Line(_) => panic!("line ended early"),
    }
}

fn line_of(k: Keystroke) -> Vec<u8> {
    match k {
        Keystroke::Line(l) => l,
        Keystroke::Redraw(_) => panic!("line did not end"),
    }
}

#[test]
fn raw_settings_clear_canonical_and_echo() {
    let io = ThreadedIO::new(saved());
    let raw = io.raw_settings();
    assert_eq!(raw.lflag, 0o100);
    assert_eq!(raw.vmin, 1);
    assert_eq!(raw.vtime, 0);
    assert_eq!(io.reset_term(), saved());
}

#[test]
fn begin_input_draws_prompt() {
    let mut io = ThreadedIO::new(saved());
    assert_eq!(io.begin_input(b">>>"), b"\r\x1b[2K>>>".to_vec());
}

#[test]
fn keystrokes_build_line() {
    let mut io = ThreadedIO::new(saved());
    io.begin_input(b">>>");
    assert_eq!(redraw_of(io.keystroke(b">>>", b'h')), b"\r\x1b[2K>>>h".to_vec());
    assert_eq!(redraw_of(io.keystroke(b">>>", b'i')), b"\r\x1b[2K>>>hi".to_vec());
    assert_eq!(line_of(io.keystroke(b">>>", LF)), b"hi".to_vec());
    // the prompt is cleared, so a printed line is not followed by it
    assert_eq!(io.println(b"x"), b"\r\x1b[2Kx\n".to_vec());
}

#[test]
fn control_bytes_are_ignored() {
    let mut io = ThreadedIO::new(saved());
    io.begin_input(b"> ");
    io.keystroke(b"> ", b'a');
    for b in [0u8, 1, 7, 9, 13, 27, 0x1f, 0x80, 0xff] {
        assert_eq!(redraw_of(io.keystroke(b"> ", b)), b"\r\x1b[2K> a".to_vec());
    }
    assert_eq!(line_of(io.keystroke(b"> ", LF)), b"a".to_vec());
}

#[test]
fn backspace_on_empty_line_does_nothing() {
    let mut io = ThreadedIO::new(saved());
    io.begin_input(b"> ");
    assert_eq!(redraw_of(io.keystroke(b"> ", DEL)), b"\r\x1b[2K> ".to_vec());
    io.keystroke(b"> ", b'a');
    io.keystroke(b"> ", b'b');
    io.keystroke(b"> ", DEL);
    assert_eq!(line_of(io.keystroke(b"> ", LF)), b"a".to_vec());
}

#[test]
fn two_hundred_characters_make_one_line() {
    let mut io = ThreadedIO::new(saved());
    io.begin_input(b">>>");
    let mut expected = Vec::new();
    for i in 0..200u32 {
        let c = b'a' + (i % 26) as u8;
        expected.push(c);
        let out = redraw_of(io.keystroke(b">>>", c));
        let mut want = b"\r\x1b[2K>>>".to_vec();
        want.extend_from_slice(&expected);
        assert_eq!(out, want);
        assert!(!out.contains(&b'\n'));
    }
    let line = line_of(io.keystroke(b">>>", LF));
    assert_eq!(line.len(), 200);
    assert_eq!(line, expected);
}

#[test]
fn println_redraws_live_prompt() {
    let mut io = ThreadedIO::new(saved());
    io.begin_input(b">>>");
    io.keystroke(b">>>", b'h');
    assert_eq!(io.println(b"(peer) yo"), b"\r\x1b[2K(peer) yo\n>>>h".to_vec());
}

#[test]
fn interrupt_is_raised_and_cleared() {
    let mut io = ThreadedIO::new(saved());
    assert!(!io.input_interrupted());
    io.interupt_input();
    assert!(io.input_interrupted());
    io.begin_input(b">");
    assert!(!io.input_interrupted());
}

/// A small terminal: printable bytes at the cursor, CR, LF and `ESC [ 2 K`.
struct Term {
    lines: Vec<Vec<u8>>,
    cur: Vec<u8>,
    col: usize,
}

impl Term {
    fn feed(&mut self, bytes: &[u8]) {
        let mut i = 0;
        while i < bytes.len() {
            let c = bytes[i];
            if c == 0x1b && bytes[i..].starts_with(b"\x1b[2K") {
                self.cur.clear();
                i += 4;
                continue;
            }
            match c {
                b'\r' => self.col = 0,
                b'\n' => {
                    self.lines.push(std::mem::take(&mut self.cur));
                    self.col = 0;
                }
                _ => {
                    if self.col < self.cur.len() {
                        self.cur[self.col] = c;
                    } else {
                        self.cur.push(c);
                    }
                    self.col += 1;
                }
            }
            i += 1;
        }
    }
}

#[test]
fn printed_lines_stay_above_intact_prompt() {
    let mut term = Term { lines: vec![], cur: vec![], col: 0 };
    let mut io = ThreadedIO::new(saved());
    term.feed(&io.begin_input(b">>>"));
    term.feed(&redraw_of(io.keystroke(b">>>", b'h')));
    term.feed(&io.println(b"X"));
    term.feed(&redraw_of(io.keystroke(b">>>", b'e')));
    term.feed(&io.println(b"Y"));
    term.feed(&redraw_of(io.keystroke(b">>>", b'y')));
    term.feed(&redraw_of(io.keystroke(b">>>", DEL)));
    let line = line_of(io.keystroke(b">>>", LF));
    assert_eq!(line, b"he".to_vec());
    assert_eq!(term.lines, vec![b"X".to_vec(), b"Y".to_vec()]);
    assert_eq!(term.cur, b">>>he".to_vec());
}

#[test]
fn successive_printed_lines_stay_whole() {
    let mut term = Term { lines: vec![], cur: vec![], col: 0 };
    let mut io = ThreadedIO::new(saved());
    term.feed(&io.begin_input(b">>>"));
    term.feed(&redraw_of(io.keystroke(b">>>", b'q')));
    let x = io.println(b"X");
    let y = io.println(b"Y");
    assert_eq!(x, b"\r\x1b[2KX\n>>>q".to_vec());
    term.feed(&y);
    term.feed(&x);
    assert_eq!(term.lines, vec![b"Y".to_vec(), b"X".to_vec()]);
    assert_eq!(term.cur, b">>>q".to_vec());
}
