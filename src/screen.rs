//! A model of what a terminal shows after it has been sent some bytes, and
//! the law that lines printed while a line is typed all stay on screen above
//! an intact live prompt.
use vstd::prelude::*;
use crate::terminal::{
    all_printable, edit, edit_all, erase_line, printable, println_output, redraw, CR, DEL, ESC, LF,
};

verus! {

/// What a terminal shows: the finished lines, the line under the cursor,
/// the cursor's column, and how much of `ESC [ 2 K` has just been read.
pub struct Screen {
    pub lines: Seq<Seq<u8>>,
    pub cur: Seq<u8>,
    pub col: nat,
    pub esc: nat,
}

/// No control sequence is half read, and the cursor ends the current line.
pub open spec fn settled(s: Screen) -> bool {
    s.esc == 0 && s.col == s.cur.len()
}

/// The screen after one byte. A printable byte is written at the cursor;
/// carriage return moves the cursor to the start, line feed starts a new
/// line, `ESC [ 2 K` erases the current line; other bytes show nothing.
pub open spec fn step(s: Screen, c: u8) -> Screen {
    if s.esc == 1 {
        Screen { lines: s.lines, cur: s.cur, col: s.col, esc: if c == 0x5b { 2 } else { 0 } }
    } else if s.esc == 2 {
        Screen { lines: s.lines, cur: s.cur, col: s.col, esc: if c == 0x32 { 3 } else { 0 } }
    } else if s.esc == 3 {
        if c == 0x4b {
            Screen { lines: s.lines, cur: Seq::empty(), col: s.col, esc: 0 }
        } else {
            Screen { lines: s.lines, cur: s.cur, col: s.col, esc: 0 }
        }
    } else if c == ESC {
        Screen { lines: s.lines, cur: s.cur, col: s.col, esc: 1 }
    } else if c == CR {
        Screen { lines: s.lines, cur: s.cur, col: 0, esc: 0 }
    } else if c == LF {
        Screen { lines: s.lines.push(s.cur), cur: Seq::empty(), col: 0, esc: 0 }
    } else if printable(c) {
        if s.col < s.cur.len() {
            Screen { lines: s.lines, cur: s.cur.update(s.col as int, c), col: s.col + 1, esc: 0 }
        } else {
            Screen { lines: s.lines, cur: s.cur.push(c), col: s.cur.len() + 1, esc: 0 }
        }
    } else {
        s
    }
}

/// The screen after the bytes `out`.
pub open spec fn show(s: Screen, out: Seq<u8>) -> Screen
    decreases out.len(),
{
    if out.len() == 0 {
        s
    } else {
        show(step(s, out[0]), out.drop_first())
    }
}

/// One event at a terminal where a line is being typed.
pub enum TtyEvent {
    /// A line is printed.
    Print(Seq<u8>),
    /// A key is typed.
    Key(u8),
}

/// The bytes written for `events`, after input began with `prompt` and the
/// typed line `line`, and the typed line after them.
pub open spec fn tty_run(prompt: Seq<u8>, line: Seq<u8>, events: Seq<TtyEvent>) -> (Seq<u8>, Seq<u8>)
    decreases events.len(),
{
    if events.len() == 0 {
        (Seq::empty(), line)
    } else {
        let (out, typed) = tty_run(prompt, line, events.drop_last());
        match events.last() {
            TtyEvent::Print(l) => (out + println_output(l, prompt + typed), typed),
            TtyEvent::Key(k) => (out + redraw(prompt, edit(typed, k)), edit(typed, k)),
        }
    }
}

/// The lines printed by `events`, in order.
pub open spec fn printed(events: Seq<TtyEvent>) -> Seq<Seq<u8>>
    decreases events.len(),
{
    if events.len() == 0 {
        Seq::empty()
    } else {
        match events.last() {
            TtyEvent::Print(l) => printed(events.drop_last()).push(l),
            TtyEvent::Key(_) => printed(events.drop_last()),
        }
    }
}

/// Printed lines are printable, and no key ends the line.
pub open spec fn plain_events(events: Seq<TtyEvent>) -> bool {
    forall|i: int|
        0 <= i < events.len() ==> match #[trigger] events[i] {
            TtyEvent::Print(l) => all_printable(l),
            TtyEvent::Key(k) => k != LF,
        }
}

proof fn lemma_show_append(s: Screen, a: Seq<u8>, b: Seq<u8>)
    ensures
        show(s, a + b) == show(show(s, a), b),
    decreases a.len(),
{
    if a.len() == 0 {
        assert(a + b == b);
    } else {
        assert((a + b).drop_first() == a.drop_first() + b);
        lemma_show_append(step(s, a[0]), a.drop_first(), b);
    }
}

proof fn lemma_show_erase(s: Screen)
    requires
        s.esc == 0,
    ensures
        show(s, erase_line()) == (Screen { lines: s.lines, cur: Seq::empty(), col: 0, esc: 0 }),
{
    let e = erase_line();
    assert(e.drop_first().drop_first().drop_first().drop_first().drop_first().len() == 0);
    reveal_with_fuel(show, 6);
}

proof fn lemma_show_text(s: Screen, t: Seq<u8>)
    requires
        settled(s),
        all_printable(t),
    ensures
        show(s, t) == (Screen { lines: s.lines, cur: s.cur + t, col: s.col + t.len(), esc: 0 }),
    decreases t.len(),
{
    if t.len() == 0 {
        assert(s.cur + t == s.cur);
    } else {
        assert(printable(t[0]));
        let s1 = step(s, t[0]);
        assert(s1.cur == s.cur.push(t[0]));
        assert(all_printable(t.drop_first()));
        lemma_show_text(s1, t.drop_first());
        assert(s.cur.push(t[0]) + t.drop_first() == s.cur + t);
    }
}

proof fn lemma_show_newline(s: Screen)
    requires
        s.esc == 0,
    ensures
        show(s, seq![LF]) == (Screen { lines: s.lines.push(s.cur), cur: Seq::empty(), col: 0, esc: 0 }),
{
    reveal_with_fuel(show, 2);
}

/// The screen with the finished lines `lines` and the live prompt `shown`.
pub open spec fn prompt_screen(lines: Seq<Seq<u8>>, shown: Seq<u8>) -> Screen {
    Screen { lines, cur: shown, col: shown.len(), esc: 0 }
}

proof fn lemma_show_redraw(s: Screen, prompt: Seq<u8>, line: Seq<u8>)
    requires
        s.esc == 0,
        all_printable(prompt + line),
    ensures
        show(s, redraw(prompt, line)) == prompt_screen(s.lines, prompt + line),
{
    let e = Screen { lines: s.lines, cur: Seq::empty(), col: 0, esc: 0 };
    assert(redraw(prompt, line) == erase_line() + (prompt + line));
    lemma_show_append(s, erase_line(), prompt + line);
    lemma_show_erase(s);
    lemma_show_text(e, prompt + line);
    assert(Seq::<u8>::empty() + (prompt + line) == prompt + line);
}

proof fn lemma_show_println(s: Screen, l: Seq<u8>, shown: Seq<u8>)
    requires
        s.esc == 0,
        all_printable(l),
        all_printable(shown),
    ensures
        show(s, println_output(l, shown)) == prompt_screen(s.lines.push(l), shown),
{
    let e = Screen { lines: s.lines, cur: Seq::empty(), col: 0, esc: 0 };
    let w = Screen { lines: s.lines, cur: l, col: l.len(), esc: 0 };
    let n = Screen { lines: s.lines.push(l), cur: Seq::empty(), col: 0, esc: 0 };
    assert(println_output(l, shown) == ((erase_line() + l) + seq![LF]) + shown);
    lemma_show_append(s, (erase_line() + l) + seq![LF], shown);
    lemma_show_append(s, erase_line() + l, seq![LF]);
    lemma_show_append(s, erase_line(), l);
    lemma_show_erase(s);
    lemma_show_text(e, l);
    assert(Seq::<u8>::empty() + l == l);
    lemma_show_newline(w);
    lemma_show_text(n, shown);
    assert(Seq::<u8>::empty() + shown == shown);
}

/// Lines printed while a line is typed all stay on screen, in the order they
/// were printed and each on its own line, and below them the live prompt
/// shows the prompt and exactly the line typed so far; so when the line is
/// complete, the prompt shows the line that input returns.
pub proof fn lemma_prompt_preserved(
    start: Screen,
    prompt: Seq<u8>,
    line: Seq<u8>,
    events: Seq<TtyEvent>,
)
    requires
        start.esc == 0,
        all_printable(prompt),
        all_printable(line),
        plain_events(events),
    ensures
        all_printable(tty_run(prompt, line, events).1),
        show(start, redraw(prompt, line) + tty_run(prompt, line, events).0) == prompt_screen(
            start.lines + printed(events),
            prompt + tty_run(prompt, line, events).1,
        ),
    decreases events.len(),
{
    if events.len() == 0 {
        assert(redraw(prompt, line) + Seq::<u8>::empty() == redraw(prompt, line));
        assert(start.lines + Seq::<Seq<u8>>::empty() == start.lines);
        lemma_show_redraw(start, prompt, line);
    } else {
        let prev = events.drop_last();
        assert(plain_events(prev)) by {
            assert forall|i: int| 0 <= i < prev.len() implies match #[trigger] prev[i] {
                TtyEvent::Print(l) => all_printable(l),
                TtyEvent::Key(k) => k != LF,
            } by {
                assert(prev[i] == events[i]);
            }
        }
        lemma_prompt_preserved(start, prompt, line, prev);
        let (out, typed) = tty_run(prompt, line, prev);
        let mid = prompt_screen(start.lines + printed(prev), prompt + typed);
        assert(plain_events(events));
        let last = events.last();
        assert(last == events[events.len() - 1]);
        match last {
            TtyEvent::Print(l) => {
                let x = println_output(l, prompt + typed);
                assert(redraw(prompt, line) + (out + x) == (redraw(prompt, line) + out) + x);
                lemma_show_append(start, redraw(prompt, line) + out, x);
                lemma_show_println(mid, l, prompt + typed);
                assert((start.lines + printed(prev)).push(l) == start.lines + printed(events));
            },
            TtyEvent::Key(k) => {
                let x = redraw(prompt, edit(typed, k));
                assert(redraw(prompt, line) + (out + x) == (redraw(prompt, line) + out) + x);
                lemma_show_append(start, redraw(prompt, line) + out, x);
                assert(all_printable(edit(typed, k)));
                lemma_show_redraw(mid, prompt, edit(typed, k));
            },
        }
    }
}

/// A control byte other than line feed and delete leaves the typed line as
/// it was.
pub proof fn lemma_control_bytes_ignored(line: Seq<u8>, key: u8)
    requires
        key < 0x20,
        key != LF,
    ensures
        edit(line, key) == line,
{
}

/// Backspace on an empty line does nothing.
pub proof fn lemma_backspace_on_empty()
    ensures
        edit(Seq::empty(), DEL) == Seq::<u8>::empty(),
{
}

/// Typing printable keys adds exactly those keys to the typed line.
pub proof fn lemma_typing_appends(line: Seq<u8>, keys: Seq<u8>)
    requires
        all_printable(keys),
    ensures
        edit_all(line, keys) == line + keys,
    decreases keys.len(),
{
    if keys.len() > 0 {
        assert(all_printable(keys.drop_last()));
        lemma_typing_appends(line, keys.drop_last());
        assert(printable(keys.last()));
        assert((line + keys.drop_last()).push(keys.last()) == line + keys);
    } else {
        assert(line + keys == line);
    }
}

} // verus!
