//! Message framing: a payload followed by one end-of-transmission byte.
use vstd::prelude::*;

verus! {

/// The byte that closes every frame (ASCII end-of-transmission).
pub const EOT: u8 = 4;

/// The frame of a payload: its bytes, then one `EOT`.
pub open spec fn frame(payload: Seq<u8>) -> Seq<u8> {
    payload.push(EOT)
}

/// Whether `s` holds no `EOT` byte.
pub open spec fn eot_free(s: Seq<u8>) -> bool {
    forall|i: int| 0 <= i < s.len() ==> s[i] != EOT
}

/// Whether the stream `s` starts with the frame of `payload`, that frame
/// ending at the first `EOT` of `s`.
pub open spec fn starts_with_frame(s: Seq<u8>, payload: Seq<u8>) -> bool {
    &&& payload.len() < s.len()
    &&& s.subrange(0, payload.len() + 1 as int) == frame(payload)
    &&& eot_free(payload)
}

/// Why no message could be read.
#[derive(Debug, Clone, Copy, PartialEq, Eq, Structural)]
pub enum RecvError {
    /// The stream ended before an `EOT` closed the message.
    UnexpectedEof,
}

/// Appends the frame of `message` to the outgoing bytes `out`.
pub fn send_msg(out: &mut Vec<u8>, message: &[u8])
    ensures
        final(out)@ == old(out)@ + frame(message@),
{
    out.extend_from_slice(message);
    out.push(EOT);
}

/// Reads the first message of a stream that holds the bytes `input` and then
/// ends: the payload, and how many bytes its frame took.
pub fn recv_msg(input: &[u8]) -> (r: Result<(Vec<u8>, usize), RecvError>)
    ensures
        match r {
            Ok((payload, used)) => used == payload@.len() + 1 && starts_with_frame(
                input@,
                payload@,
            ),
            Err(e) => e == RecvError::UnexpectedEof && eot_free(input@),
        },
{
    let mut reader = FrameReader::new();
    let mut i: usize = 0;
    while i < input.len()
        invariant
            i <= input@.len(),
            reader.pending() == input@.subrange(0, i as int),
            eot_free(input@.subrange(0, i as int)),
        decreases input@.len() - i,
    {
        let byte = input[i];
        match reader.push(byte) {
            Some(payload) => {
                assert(input@.subrange(0, i + 1) == frame(payload@));
                return Ok((payload, i + 1));
            },
            None => {},
        }
        i = i + 1;
        assert(input@.subrange(0, i as int) == reader.pending());
    }
    assert(input@.subrange(0, input@.len() as int) == input@);
    Err(RecvError::UnexpectedEof)
}

/// Gathers bytes that arrive one at a time into messages, keeping the part
/// of a message that has come so far.
pub struct FrameReader {
    pending: Vec<u8>,
}

impl FrameReader {
    /// The bytes of the message that is not complete yet.
    pub closed spec fn pending(&self) -> Seq<u8> {
        self.pending@
    }

    pub fn new() -> (r: FrameReader)
        ensures
            r.pending() == Seq::<u8>::empty(),
    {
        FrameReader { pending: Vec::new() }
    }

    /// Takes one byte: an `EOT` completes the pending message and hands it
    /// out, any other byte is added to it.
    pub fn push(&mut self, byte: u8) -> (r: Option<Vec<u8>>)
        ensures
            byte == EOT ==> r is Some && r->0@ == old(self).pending() && final(self).pending()
                == Seq::<u8>::empty(),
            byte != EOT ==> r is None && final(self).pending() == old(self).pending().push(byte),
            // the pending bytes never hold an EOT
            eot_free(old(self).pending()) ==> eot_free(final(self).pending()),
    {
        if byte == EOT {
            let mut done: Vec<u8> = Vec::new();
            std::mem::swap(&mut done, &mut self.pending);
            Some(done)
        } else {
            self.pending.push(byte);
            None
        }
    }
}

/// A message with no `EOT` in it comes back whole from the stream that
/// starts with its frame, whatever follows.
pub proof fn lemma_frame_round_trip(message: Seq<u8>, rest: Seq<u8>)
    requires
        eot_free(message),
    ensures
        starts_with_frame(frame(message) + rest, message),
        forall|p: Seq<u8>| starts_with_frame(frame(message) + rest, p) ==> p == message,
{
    let s = frame(message) + rest;
    assert(s.subrange(0, message.len() + 1 as int) == frame(message));
    assert forall|p: Seq<u8>| starts_with_frame(s, p) implies p == message by {
        if p.len() < message.len() {
            assert(s[p.len() as int] == frame(p)[p.len() as int]);
            assert(s[p.len() as int] == message[p.len() as int]);
        } else if p.len() > message.len() {
            assert(s[message.len() as int] == EOT);
            assert(p[message.len() as int] == s.subrange(0, p.len() + 1 as int)[message.len() as int]);
        } else {
            assert(p == s.subrange(0, p.len() + 1 as int).drop_last());
            assert(message == frame(message).drop_last());
        }
    }
}

} // verus!
