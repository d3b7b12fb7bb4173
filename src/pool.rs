//! The daemon's pool of accepted connections that no client has claimed yet.
use vstd::prelude::*;
use crate::framing::{FrameReader, EOT};

verus! {

/// An IPv4 peer: its address and port.
#[derive(Clone, Copy, Debug)]
pub struct PeerAddr {
    pub octets: [u8; 4],
    pub port: u16,
}

/// One accepted peer held by the daemon.
pub struct Connection<S> {
    /// The socket, owned until it is handed to a client.
    pub stream: S,
    pub address: PeerAddr,
    /// What has arrived of a message that is not complete yet.
    pub message_buffer: FrameReader,
    /// The name the peer announced.
    pub name: Vec<u8>,
    /// When the peer was accepted, in seconds since the Unix epoch.
    pub time: i64,
}

/// The name recorded for a peer that did not announce one in time.
pub open spec fn unknown_name() -> Seq<u8> {
    seq![0x6eu8, 0x61, 0x6d, 0x65, 0x20, 0x75, 0x6e, 0x6b, 0x6e, 0x6f, 0x77, 0x6e]
}

/// The entries of `cs` whose flag in `alive` is set, in their order.
pub open spec fn kept<T>(cs: Seq<T>, alive: Seq<bool>) -> Seq<T>
    decreases cs.len(),
{
    if cs.len() == 0 {
        Seq::empty()
    } else {
        let rest = kept(cs.drop_first(), alive.drop_first());
        if alive[0] {
            seq![cs[0]] + rest
        } else {
            rest
        }
    }
}

/// Whether `c` is an entry of `cs` whose flag in `alive` is set.
pub open spec fn flagged_entry<T>(cs: Seq<T>, alive: Seq<bool>, c: T) -> bool {
    exists|i: int| 0 <= i < cs.len() && i < alive.len() && alive[i] && cs[i] == c
}

/// `s` after `swap_remove(i)`: the last entry takes the place of entry `i`.
pub open spec fn swap_removed<T>(s: Seq<T>, i: int) -> Seq<T> {
    s.update(i, s.last()).drop_last()
}

/// Why a connection cannot be handed out.
#[derive(Debug, Clone, Copy, PartialEq, Eq, Structural)]
pub enum HandoffError {
    /// The pool holds no connection.
    NoSocketsAvailable,
    /// The chosen index is not that of an entry.
    IndexOutOfRange,
}

/// What a one-byte peek at a pooled socket that does not block gave.
pub enum PeekOutcome {
    /// This many bytes were there; zero means the peer closed.
    Bytes(usize),
    /// Nothing has arrived yet.
    WouldBlock,
    /// Any other error.
    Failed,
}

/// Whether a peek shows the peer still connected: nothing to read yet, or
/// bytes waiting.
pub fn is_alive(peek: PeekOutcome) -> (r: bool)
    ensures
        r == match peek {
            PeekOutcome::Bytes(n) => n > 0,
            PeekOutcome::WouldBlock => true,
            PeekOutcome::Failed => false,
        },
{
    match peek {
        PeekOutcome::Bytes(n) => n > 0,
        PeekOutcome::WouldBlock => true,
        PeekOutcome::Failed => false,
    }
}

/// What a read from a pooled socket that does not block gave.
pub enum ReadOutcome {
    Byte(u8),
    /// Nothing has arrived yet.
    WouldBlock,
    /// The peer closed the connection.
    Closed,
    /// Any other error.
    Failed,
}

/// What to do after a read from a pooled socket.
pub enum ReadStep {
    /// Read on.
    Continue,
    /// A message is complete: here is its payload.
    Message(Vec<u8>),
    /// Stop reading for now.
    Stop,
}

impl<S> Connection<S> {
    /// Takes the outcome of one read: a byte goes into the pending message,
    /// `EOT` completes it, and anything else stops the reading.
    pub fn on_read(&mut self, read: ReadOutcome) -> (r: ReadStep)
        ensures
            final(self).name == old(self).name,
            final(self).time == old(self).time,
            final(self).address == old(self).address,
            final(self).stream == old(self).stream,
            match read {
                ReadOutcome::Byte(b) => if b == EOT {
                    r matches ReadStep::Message(m) && m@ == old(self).message_buffer.pending()
                        && final(self).message_buffer.pending() == Seq::<u8>::empty()
                } else {
                    r is Continue && final(self).message_buffer.pending()
                        == old(self).message_buffer.pending().push(b)
                },
                _ => r is Stop && final(self).message_buffer.pending()
                    == old(self).message_buffer.pending(),
            },
    {
        match read {
            ReadOutcome::Byte(b) => match self.message_buffer.push(b) {
                Some(m) => ReadStep::Message(m),
                None => ReadStep::Continue,
            },
            _ => ReadStep::Stop,
        }
    }
}

/// The connections held by the daemon.
pub struct Pool<S> {
    connections: Vec<Connection<S>>,
}

impl<S> Pool<S> {
    pub closed spec fn entries(&self) -> Seq<Connection<S>> {
        self.connections@
    }

    pub fn new() -> (r: Pool<S>)
        ensures
            r.entries() == Seq::<Connection<S>>::empty(),
    {
        Pool { connections: Vec::new() }
    }

    pub fn len(&self) -> (r: usize)
        ensures
            r == self.entries().len(),
    {
        self.connections.len()
    }

    /// The entry at `index`.
    pub fn get(&self, index: usize) -> (r: &Connection<S>)
        requires
            index < self.entries().len(),
        ensures
            *r == self.entries()[index as int],
    {
        &self.connections[index]
    }

    /// Adds a peer accepted at `time` that announced `name`, or none in time;
    /// nothing of its next message has arrived yet.
    pub fn enrol(&mut self, stream: S, address: PeerAddr, name: Option<Vec<u8>>, time: i64)
        ensures
            final(self).entries().len() == old(self).entries().len() + 1,
            final(self).entries().drop_last() == old(self).entries(),
            final(self).entries().last().stream == stream,
            final(self).entries().last().address == address,
            final(self).entries().last().time == time,
            final(self).entries().last().message_buffer.pending() == Seq::<u8>::empty(),
            final(self).entries().last().name@ == match name {
                Some(n) => n@,
                None => unknown_name(),
            },
    {
        let name = match name {
            Some(n) => n,
            None => {
                let n = vec![0x6e, 0x61, 0x6d, 0x65, 0x20, 0x75, 0x6e, 0x6b, 0x6e, 0x6f, 0x77, 0x6e];
                assert(n@ == unknown_name());
                n
            },
        };
        let c = Connection { stream, address, message_buffer: FrameReader::new(), name, time };
        self.connections.push(c);
        assert(self.connections@.drop_last() == old(self).connections@);
    }

    /// Takes the outcome of one read from the socket of the entry at
    /// `index`, as `Connection::on_read` says; the other entries stay.
    pub fn on_read(&mut self, index: usize, read: ReadOutcome) -> (r: ReadStep)
        requires
            index < old(self).entries().len(),
        ensures
            final(self).entries().len() == old(self).entries().len(),
            forall|j: int|
                0 <= j < old(self).entries().len() && j != index ==> #[trigger] final(self).entries()[j]
                    == old(self).entries()[j],
            final(self).entries()[index as int].name == old(self).entries()[index as int].name,
            final(self).entries()[index as int].time == old(self).entries()[index as int].time,
            final(self).entries()[index as int].address == old(self).entries()[index as int].address,
            final(self).entries()[index as int].stream == old(self).entries()[index as int].stream,
            ({
                let before = old(self).entries()[index as int].message_buffer.pending();
                let after = final(self).entries()[index as int].message_buffer.pending();
                match read {
                    ReadOutcome::Byte(b) => if b == EOT {
                        r matches ReadStep::Message(m) && m@ == before && after == Seq::<u8>::empty()
                    } else {
                        r is Continue && after == before.push(b)
                    },
                    _ => r is Stop && after == before,
                }
            }),
    {
        let mut c = self.connections.remove(index);
        let r = c.on_read(read);
        self.connections.insert(index, c);
        r
    }

    /// Drops each entry whose flag in `alive` is not set, keeping the order
    /// of the others.
    pub fn sweep(&mut self, alive: &Vec<bool>)
        requires
            alive@.len() == old(self).entries().len(),
        ensures
            final(self).entries() == kept(old(self).entries(), alive@),
            forall|j: int|
                0 <= j < final(self).entries().len() ==> flagged_entry(
                    old(self).entries(),
                    alive@,
                    #[trigger] final(self).entries()[j],
                ),
    {
        let ghost cs = self.connections@;
        let mut i = self.connections.len();
        assert(cs.subrange(i as int, cs.len() as int) == Seq::<Connection<S>>::empty());
        assert(cs.subrange(0, i as int) + Seq::<Connection<S>>::empty() == cs);
        while i > 0
            invariant
                i <= cs.len() == alive@.len(),
                self.connections@ == cs.subrange(0, i as int) + kept(
                    cs.subrange(i as int, cs.len() as int),
                    alive@.subrange(i as int, cs.len() as int),
                ),
            decreases i,
        {
            let ghost tail = kept(
                cs.subrange(i as int, cs.len() as int),
                alive@.subrange(i as int, cs.len() as int),
            );
            i = i - 1;
            assert(cs.subrange(i as int, cs.len() as int).drop_first() == cs.subrange(
                i + 1,
                cs.len() as int,
            ));
            assert(alive@.subrange(i as int, cs.len() as int).drop_first() == alive@.subrange(
                i + 1,
                cs.len() as int,
            ));
            assert(cs.subrange(0, i + 1) == cs.subrange(0, i as int).push(cs[i as int]));
            if !alive[i] {
                self.connections.remove(i);
                assert(self.connections@ == cs.subrange(0, i as int) + tail);
            } else {
                assert(cs.subrange(0, i as int).push(cs[i as int]) + tail == cs.subrange(0, i as int)
                    + (seq![cs[i as int]] + tail));
            }
        }
        assert(cs.subrange(0, 0) + kept(cs, alive@) == kept(cs, alive@));
        assert(cs.subrange(0, cs.len() as int) == cs);
        assert(alive@.subrange(0, cs.len() as int) == alive@);
        assert forall|j: int| 0 <= j < self.entries().len() implies flagged_entry(
            old(self).entries(),
            alive@,
            #[trigger] self.entries()[j],
        ) by {
            let k = lemma_kept_source(cs, alive@, j);
            assert(alive@[k] && old(self).entries()[k] == self.entries()[j]);
        }
    }

    /// Hands out the entry at `index`: the last entry takes its place.
    pub fn take(&mut self, index: u32) -> (r: Result<Connection<S>, HandoffError>)
        ensures
            old(self).entries().len() == 0 ==> r == Err::<Connection<S>, HandoffError>(
                HandoffError::NoSocketsAvailable,
            ),
            old(self).entries().len() > 0 && index >= old(self).entries().len() ==> r == Err::<
                Connection<S>,
                HandoffError,
            >(HandoffError::IndexOutOfRange),
            r is Err ==> final(self).entries() == old(self).entries(),
            index < old(self).entries().len() ==> r == Ok::<Connection<S>, HandoffError>(
                old(self).entries()[index as int],
            ) && final(self).entries() == swap_removed(old(self).entries(), index as int),
    {
        if self.connections.len() == 0 {
            return Err(HandoffError::NoSocketsAvailable);
        }
        if index as usize >= self.connections.len() {
            return Err(HandoffError::IndexOutOfRange);
        }
        let c = self.connections.swap_remove(index as usize);
        assert(self.connections@ == swap_removed(old(self).connections@, index as int));
        Ok(c)
    }
}

/// Where the entry `j` of `kept(cs, alive)` comes from: an entry of `cs`
/// whose flag is set.
proof fn lemma_kept_source<T>(cs: Seq<T>, alive: Seq<bool>, j: int) -> (i: int)
    requires
        cs.len() == alive.len(),
        0 <= j < kept(cs, alive).len(),
    ensures
        0 <= i < cs.len(),
        alive[i],
        cs[i] == kept(cs, alive)[j],
    decreases cs.len(),
{
    let cs1 = cs.drop_first();
    let al1 = alive.drop_first();
    let rest = kept(cs1, al1);
    if alive[0] {
        assert(kept(cs, alive) == seq![cs[0]] + rest);
        if j == 0 {
            0
        } else {
            let i = lemma_kept_source(cs1, al1, j - 1);
            i + 1
        }
    } else {
        let i = lemma_kept_source(cs1, al1, j);
        i + 1
    }
}

/// Handing out the entry at `i` takes exactly that entry out of the pool:
/// the pool afterwards, with the entry handed out, is the pool before.
pub proof fn lemma_handoff_takes_entry<T>(cs: Seq<T>, i: int)
    requires
        0 <= i < cs.len(),
    ensures
        swap_removed(cs, i).len() == cs.len() - 1,
        swap_removed(cs, i).to_multiset().insert(cs[i]) == cs.to_multiset(),
{
    broadcast use vstd::seq_lib::to_multiset_update, vstd::seq_lib::to_multiset_build,
        vstd::seq_lib::to_multiset_contains, vstd::multiset::group_multiset_axioms;

    let u = cs.update(i, cs.last());
    let d = swap_removed(cs, i);
    assert(u == d.push(cs.last()));
    assert(cs.contains(cs[i]));
    assert(cs.to_multiset().count(cs[i]) > 0);
    vstd::seq_lib::to_multiset_update(cs, i, cs.last());
    vstd::seq_lib::to_multiset_build(d, cs.last());
    let m = cs.to_multiset();
    let md = d.to_multiset();
    assert(md.insert(cs.last()) == m.insert(cs.last()).remove(cs[i]));
    assert forall|v: T| #[trigger] md.insert(cs[i]).count(v) == m.count(v) by {
        assert(md.insert(cs.last()).count(v) == m.insert(cs.last()).remove(cs[i]).count(v));
    }
    assert(md.insert(cs[i]) =~= m);
}

} // verus!
