//! The terminal controller's state: the line being typed, the prompt that is
//! on screen, and what to write so that lines printed while the user types
//! leave the live prompt intact.
use vstd::prelude::*;

verus! {

/// Line feed: ends the typed line, and moves the screen to a new line.
pub const LF: u8 = 0x0a;

/// Carriage return: moves the cursor to the start of the line.
pub const CR: u8 = 0x0d;

/// Escape: starts a control sequence.
pub const ESC: u8 = 0x1b;

/// Delete, the byte that the backspace key sends.
pub const DEL: u8 = 0x7f;

/// Whether `b` is printable ASCII.
pub open spec fn printable(b: u8) -> bool {
    0x20 <= b <= 0x7e
}

pub open spec fn all_printable(s: Seq<u8>) -> bool {
    forall|i: int| 0 <= i < s.len() ==> printable(#[trigger] s[i])
}

/// Carriage return, then `ESC [ 2 K`, which erases the whole line.
pub open spec fn erase_line() -> Seq<u8> {
    seq![CR, ESC, 0x5bu8, 0x32u8, 0x4bu8]
}

/// What one keystroke does to the line being typed.
pub open spec fn edit(line: Seq<u8>, key: u8) -> Seq<u8> {
    if key == DEL {
        if line.len() > 0 {
            line.drop_last()
        } else {
            line
        }
    } else if printable(key) {
        line.push(key)
    } else {
        line
    }
}

/// The line being typed after the keys `keys`, none of them a line feed.
pub open spec fn edit_all(line: Seq<u8>, keys: Seq<u8>) -> Seq<u8>
    decreases keys.len(),
{
    if keys.len() == 0 {
        line
    } else {
        edit(edit_all(line, keys.drop_last()), keys.last())
    }
}

/// The bytes that draw the live prompt afresh.
pub open spec fn redraw(prompt: Seq<u8>, line: Seq<u8>) -> Seq<u8> {
    erase_line() + prompt + line
}

/// The bytes that print `line` above the live prompt `shown`.
pub open spec fn println_output(line: Seq<u8>, shown: Seq<u8>) -> Seq<u8> {
    erase_line() + line + seq![LF] + shown
}

/// Terminal settings that the controller reads and changes: the local mode
/// flags, and the read's minimum byte count and timeout.
#[derive(Clone, Copy, Debug, PartialEq, Eq, Structural)]
pub struct TermMode {
    pub lflag: u32,
    pub vmin: u8,
    pub vtime: u8,
}

/// The canonical-input bit of the local mode flags on Linux.
pub const ICANON_BIT: u32 = 0o2;

/// The echo bit of the local mode flags on Linux.
pub const ECHO_BIT: u32 = 0o10;

/// Relies on termios::ICANON, the canonical-input flag, which is 0o2 in the
/// crate's Linux definitions.
#[verifier::external_body]
fn canonical_flag() -> (r: u32)
    ensures
        r == ICANON_BIT,
{
    termios::ICANON
}

/// Relies on termios::ECHO, the echo flag, which is 0o10 in the crate's Linux
/// definitions.
#[verifier::external_body]
fn echo_flag() -> (r: u32)
    ensures
        r == ECHO_BIT,
{
    termios::ECHO
}

impl TermMode {
    /// The settings for reading keys one at a time without echo: canonical
    /// input and echo off, at least one byte per read, no read timeout.
    pub fn raw(&self) -> (r: TermMode)
        ensures
            r.lflag == self.lflag & !(ICANON_BIT | ECHO_BIT),
            r.vmin == 1,
            r.vtime == 0,
    {
        let mask = canonical_flag() | echo_flag();
        TermMode { lflag: self.lflag & !mask, vmin: 1, vtime: 0 }
    }
}

/// What a keystroke asks the caller to do.
pub enum Keystroke {
    /// The line is complete: here it is.
    Line(Vec<u8>),
    /// The line goes on: write these bytes to redraw the prompt.
    Redraw(Vec<u8>),
}

/// The state of a terminal shared by typed input and printed lines.
pub struct ThreadedIO {
    input_buffer: Vec<u8>,
    current_prompt_state: Vec<u8>,
    old_term_settings: TermMode,
    interupt: bool,
}

impl ThreadedIO {
    /// The line being typed.
    pub closed spec fn accumulator(&self) -> Seq<u8> {
        self.input_buffer@
    }

    /// The live prompt as it was last drawn: prompt text and typed line.
    pub closed spec fn shown(&self) -> Seq<u8> {
        self.current_prompt_state@
    }

    /// The settings the terminal had before the controller changed them.
    pub closed spec fn saved(&self) -> TermMode {
        self.old_term_settings
    }

    /// Whether another activity asked the current input to stop.
    pub closed spec fn interrupt_raised(&self) -> bool {
        self.interupt
    }

    /// The typed line holds printable characters only.
    pub closed spec fn wf(&self) -> bool {
        all_printable(self.input_buffer@)
    }

    /// A controller for a terminal whose settings were `saved`.
    pub fn new(saved: TermMode) -> (r: ThreadedIO)
        ensures
            r.wf(),
            r.accumulator() == Seq::<u8>::empty(),
            r.shown() == Seq::<u8>::empty(),
            r.saved() == saved,
            !r.interrupt_raised(),
    {
        ThreadedIO {
            input_buffer: Vec::new(),
            current_prompt_state: Vec::new(),
            old_term_settings: saved,
            interupt: false,
        }
    }

    /// The settings to put the terminal in while the controller runs.
    pub fn raw_settings(&self) -> (r: TermMode)
        ensures
            r.lflag == self.saved().lflag & !(ICANON_BIT | ECHO_BIT),
            r.vmin == 1,
            r.vtime == 0,
    {
        self.old_term_settings.raw()
    }

    /// The settings to restore when the controller ends.
    pub fn reset_term(&self) -> (r: TermMode)
        ensures
            r == self.saved(),
    {
        self.old_term_settings
    }

    /// The bytes that print `line` and then redraw the live prompt.
    pub fn println(&self, line: &[u8]) -> (r: Vec<u8>)
        ensures
            r@ == println_output(line@, self.shown()),
    {
        let mut out = erase_line_bytes();
        out.extend_from_slice(line);
        out.push(LF);
        out.extend_from_slice(self.current_prompt_state.as_slice());
        out
    }

    /// Starts reading a line after `prompt`: clears the interrupt request,
    /// and gives the bytes that draw the prompt with what was typed so far.
    pub fn begin_input(&mut self, prompt: &[u8]) -> (r: Vec<u8>)
        requires
            old(self).wf(),
        ensures
            final(self).wf(),
            final(self).accumulator() == old(self).accumulator(),
            final(self).shown() == prompt@ + old(self).accumulator(),
            final(self).saved() == old(self).saved(),
            !final(self).interrupt_raised(),
            r@ == redraw(prompt@, old(self).accumulator()),
    {
        self.interupt = false;
        self.draw_prompt(prompt)
    }

    /// Takes one key typed after `prompt`. A line feed completes the line
    /// and clears it; any other key edits the line, and the prompt is redrawn.
    pub fn keystroke(&mut self, prompt: &[u8], key: u8) -> (r: Keystroke)
        requires
            old(self).wf(),
        ensures
            final(self).wf(),
            final(self).saved() == old(self).saved(),
            final(self).interrupt_raised() == old(self).interrupt_raised(),
            key == LF ==> (r matches Keystroke::Line(line) && line@ == old(self).accumulator()),
            key == LF ==> final(self).accumulator() == Seq::<u8>::empty() && final(self).shown()
                == Seq::<u8>::empty(),
            key != LF ==> final(self).accumulator() == edit(old(self).accumulator(), key)
                && final(self).shown() == prompt@ + final(self).accumulator(),
            key != LF ==> (r matches Keystroke::Redraw(out) && out@ == redraw(
                prompt@,
                final(self).accumulator(),
            )),
    {
        if key == LF {
            let mut line: Vec<u8> = Vec::new();
            std::mem::swap(&mut line, &mut self.input_buffer);
            self.current_prompt_state = Vec::new();
            return Keystroke::Line(line);
        }
        if key == DEL {
            if self.input_buffer.len() > 0 {
                self.input_buffer.pop();
            }
        } else if 0x20 <= key && key <= 0x7e {
            self.input_buffer.push(key);
        }
        assert(self.input_buffer@ == edit(old(self).input_buffer@, key));
        Keystroke::Redraw(self.draw_prompt(prompt))
    }

    /// Asks the input that is running to stop at its next wait.
    pub fn interupt_input(&mut self)
        ensures
            final(self).interrupt_raised(),
            final(self).accumulator() == old(self).accumulator(),
            final(self).shown() == old(self).shown(),
            final(self).saved() == old(self).saved(),
            final(self).wf() == old(self).wf(),
    {
        self.interupt = true;
    }

    /// Whether the input must stop: asked for when a wait for a key ends
    /// with no key.
    pub fn input_interrupted(&self) -> (r: bool)
        ensures
            r == self.interrupt_raised(),
    {
        self.interupt
    }

    fn draw_prompt(&mut self, prompt: &[u8]) -> (r: Vec<u8>)
        ensures
            final(self).input_buffer == old(self).input_buffer,
            final(self).old_term_settings == old(self).old_term_settings,
            final(self).interupt == old(self).interupt,
            final(self).current_prompt_state@ == prompt@ + old(self).input_buffer@,
            r@ == redraw(prompt@, old(self).input_buffer@),
    {
        let mut shown: Vec<u8> = Vec::new();
        shown.extend_from_slice(prompt);
        shown.extend_from_slice(self.input_buffer.as_slice());
        let mut out = erase_line_bytes();
        out.extend_from_slice(shown.as_slice());
        self.current_prompt_state = shown;
        assert(out@ == redraw(prompt@, old(self).input_buffer@));
        out
    }
}

fn erase_line_bytes() -> (r: Vec<u8>)
    ensures
        r@ == erase_line(),
{
    let r = vec![CR, ESC, 0x5b, 0x32, 0x4b];
    assert(r@ == erase_line());
    r
}

} // verus!
