//! The decisions of a chat session: what the writer does with a typed line,
//! how lines appear in the transcript, and the flag that ends both sides.
use vstd::prelude::*;
use crate::framing::{frame, send_msg};

verus! {

/// The line `/exit`, which ends the session.
pub open spec fn exit_command() -> Seq<u8> {
    seq![0x2fu8, 0x65, 0x78, 0x69, 0x74]
}

/// How a message appears in the transcript: `(<name>) <payload>`.
pub open spec fn transcript_line(name: Seq<u8>, payload: Seq<u8>) -> Seq<u8> {
    seq![0x28u8] + name + seq![0x29u8, 0x20u8] + payload
}

/// What the writer does with a typed line.
pub enum WriterStep {
    /// End the session: shut the socket down both ways.
    Exit,
    /// Send `frame` to the peer, then print `echo`.
    Send { frame: Vec<u8>, echo: Vec<u8> },
}

/// The state that the two activities of a session share.
pub struct Session {
    our_name: Vec<u8>,
    peer_name: Vec<u8>,
    running: bool,
}

fn transcript(name: &[u8], payload: &[u8]) -> (r: Vec<u8>)
    ensures
        r@ == transcript_line(name@, payload@),
{
    let mut r: Vec<u8> = vec![0x28];
    r.extend_from_slice(name);
    r.push(0x29);
    r.push(0x20);
    r.extend_from_slice(payload);
    r
}

impl Session {
    pub closed spec fn our_name(&self) -> Seq<u8> {
        self.our_name@
    }

    pub closed spec fn peer_name(&self) -> Seq<u8> {
        self.peer_name@
    }

    /// Whether neither activity has asked the session to end.
    pub closed spec fn is_running(&self) -> bool {
        self.running
    }

    pub fn new(our_name: Vec<u8>, peer_name: Vec<u8>) -> (r: Session)
        ensures
            r.our_name() == our_name@,
            r.peer_name() == peer_name@,
            r.is_running(),
    {
        Session { our_name, peer_name, running: true }
    }

    pub fn running(&self) -> (r: bool)
        ensures
            r == self.is_running(),
    {
        self.running
    }

    /// Asks both activities to end.
    pub fn stop(&mut self)
        ensures
            !final(self).is_running(),
            final(self).our_name() == old(self).our_name(),
            final(self).peer_name() == old(self).peer_name(),
    {
        self.running = false;
    }

    /// The writer's step for a typed line: `/exit` ends the session; any
    /// other line is sent to the peer and echoed under our own name.
    pub fn on_line(&mut self, line: &[u8]) -> (r: WriterStep)
        ensures
            final(self).our_name() == old(self).our_name(),
            final(self).peer_name() == old(self).peer_name(),
            line@ == exit_command() ==> r is Exit && !final(self).is_running(),
            line@ != exit_command() ==> final(self).is_running() == old(self).is_running() && (
            r matches WriterStep::Send { frame: f, echo } && f@ == frame(line@) && echo@
                == transcript_line(old(self).our_name(), line@)),
    {
        let exit: [u8; 5] = [0x2f, 0x65, 0x78, 0x69, 0x74];
        assert(exit@ == exit_command());
        let mut same = line.len() == 5;
        let mut i: usize = 0;
        while same && i < 5
            invariant
                exit@ == exit_command(),
                same ==> line@.len() == 5,
                i <= 5,
                same ==> line@.subrange(0, i as int) == exit@.subrange(0, i as int),
                !same ==> line@ != exit@,
            decreases 5 - i,
        {
            if line[i] != exit[i] {
                same = false;
            } else {
                assert(line@.subrange(0, i + 1) == line@.subrange(0, i as int).push(line@[i as int]));
                assert(exit@.subrange(0, i + 1) == exit@.subrange(0, i as int).push(exit@[i as int]));
            }
            i = i + 1;
        }
        if same {
            assert(line@ == line@.subrange(0, 5));
            assert(exit@ == exit@.subrange(0, 5));
            self.running = false;
            return WriterStep::Exit;
        }
        let mut f: Vec<u8> = Vec::new();
        send_msg(&mut f, line);
        assert(f@ == frame(line@));
        let echo = transcript(self.our_name.as_slice(), line);
        WriterStep::Send { frame: f, echo }
    }

    /// The reader's line for a message from the peer.
    pub fn on_message(&self, payload: &[u8]) -> (r: Vec<u8>)
        ensures
            r@ == transcript_line(self.peer_name(), payload@),
    {
        transcript(self.peer_name.as_slice(), payload)
    }
}

} // verus!
