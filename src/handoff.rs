//! The wire format that the daemon and a client speak over the local
//! rendezvous socket: a count, one (timestamp, name) entry per pooled
//! connection, then the index of the connection the client takes.
use vstd::prelude::*;
use crate::framing::{eot_free, frame, starts_with_frame, EOT};
use crate::pool::{Connection, HandoffError, Pool};

verus! {

pub open spec fn pow256(k: nat) -> nat
    decreases k,
{
    if k == 0 {
        1
    } else {
        256 * pow256((k - 1) as nat)
    }
}

/// The `k` low bytes of `n`, most significant first.
pub open spec fn be_bytes(n: nat, k: nat) -> Seq<u8>
    decreases k,
{
    if k == 0 {
        Seq::empty()
    } else {
        be_bytes(n / 256, (k - 1) as nat).push((n % 256) as u8)
    }
}

/// The number that the bytes `s` spell, most significant first.
pub open spec fn be_value(s: Seq<u8>) -> nat
    decreases s.len(),
{
    if s.len() == 0 {
        0
    } else {
        be_value(s.drop_last()) * 256 + s.last() as nat
    }
}

proof fn lemma_be_len(n: nat, k: nat)
    ensures
        be_bytes(n, k).len() == k,
    decreases k,
{
    if k > 0 {
        lemma_be_len(n / 256, (k - 1) as nat);
    }
}

/// Reading back `k` big-endian bytes gives the number written, when it
/// fits in them.
pub proof fn lemma_be_round_trip(n: nat, k: nat)
    requires
        n < pow256(k),
    ensures
        be_value(be_bytes(n, k)) == n,
    decreases k,
{
    if k > 0 {
        assert(n / 256 < pow256((k - 1) as nat)) by (nonlinear_arith)
            requires
                n < 256 * pow256((k - 1) as nat),
        ;
        lemma_be_round_trip(n / 256, (k - 1) as nat);
        let s = be_bytes(n, k);
        assert(s.drop_last() == be_bytes(n / 256, (k - 1) as nat));
        assert(n == (n / 256) * 256 + n % 256) by (nonlinear_arith);
    }
}

proof fn lemma_be_value_bound(s: Seq<u8>)
    ensures
        be_value(s) < pow256(s.len()),
    decreases s.len(),
{
    if s.len() > 0 {
        lemma_be_value_bound(s.drop_last());
        let a = be_value(s.drop_last());
        let p = pow256((s.len() - 1) as nat);
        let b = s.last() as nat;
        assert(a * 256 + b < 256 * p) by (nonlinear_arith)
            requires
                a < p,
                b < 256,
        ;
    }
}

proof fn lemma_pow256_facts()
    ensures
        pow256(4) == 0x1_0000_0000,
        pow256(8) == 0x1_0000_0000_0000_0000,
{
    reveal_with_fuel(pow256, 9);
}

/// Writes the `k` low bytes of `n`, most significant first.
fn be_encode(n: u64, k: usize) -> (r: Vec<u8>)
    requires
        k <= 8,
    ensures
        r@ == be_bytes(n as nat, k as nat),
    decreases k,
{
    if k == 0 {
        Vec::new()
    } else {
        let mut r = be_encode(n / 256, k - 1);
        r.push((n % 256) as u8);
        r
    }
}

/// Reads the number in the `k` bytes of `s` that start at `start`.
fn be_decode(s: &[u8], start: usize, k: usize) -> (r: u64)
    requires
        k <= 8,
        start + k <= s@.len(),
    ensures
        r as nat == be_value(s@.subrange(start as int, start + k)),
{
    let n = s.len();
    let mut v: u64 = 0;
    let mut j: usize = 0;
    while j < k
        invariant
            n == s@.len(),
            j <= k <= 8,
            start + k <= s@.len(),
            v as nat == be_value(s@.subrange(start as int, start + j)),
        decreases k - j,
    {
        let ghost prefix = s@.subrange(start as int, start + j);
        proof {
            lemma_be_value_bound(prefix);
            lemma_pow256_facts();
            lemma_pow256_mono(j as nat, 7);
        }
        let b = s[start + j];
        assert(s@.subrange(start as int, start + j + 1).drop_last() == prefix);
        assert(v * 256 + b < 0x1_0000_0000_0000_0000) by (nonlinear_arith)
            requires
                v < pow256(j as nat),
                pow256(j as nat) <= pow256(7),
                pow256(7) * 256 == 0x1_0000_0000_0000_0000,
                b < 256,
        ;
        v = v * 256 + b as u64;
        j = j + 1;
    }
    v
}

proof fn lemma_pow256_mono(a: nat, b: nat)
    requires
        a <= b,
    ensures
        pow256(a) <= pow256(b),
        pow256(7) * 256 == 0x1_0000_0000_0000_0000,
    decreases b,
{
    reveal_with_fuel(pow256, 9);
    if a < b {
        lemma_pow256_mono(a, (b - 1) as nat);
    }
}

/// One entry of the listing: a timestamp and a framed name.
pub open spec fn entry_bytes(time: u64, name: Seq<u8>) -> Seq<u8> {
    be_bytes(time as nat, 8) + frame(name)
}

pub open spec fn entries_bytes(es: Seq<(u64, Seq<u8>)>) -> Seq<u8>
    decreases es.len(),
{
    if es.len() == 0 {
        Seq::empty()
    } else {
        entries_bytes(es.drop_last()) + entry_bytes(es.last().0, es.last().1)
    }
}

/// The listing of the entries `es`: their count in four bytes, then each
/// entry in order.
pub open spec fn listing_bytes(es: Seq<(u64, Seq<u8>)>) -> Seq<u8> {
    be_bytes(es.len(), 4) + entries_bytes(es)
}

/// An arrival time as the listing carries it: a time before the epoch is 0.
pub open spec fn wire_time(t: i64) -> u64 {
    if t < 0 {
        0
    } else {
        t as u64
    }
}

/// The pooled connections `cs` as the listing shows them.
pub open spec fn listed<S>(cs: Seq<Connection<S>>) -> Seq<(u64, Seq<u8>)> {
    cs.map_values(|c: Connection<S>| (wire_time(c.time), c.name@))
}

/// How many entries a listing of `n` pooled connections shows: as many as
/// a four-byte count can say.
pub open spec fn listing_count(n: nat) -> nat {
    if n > 0xffff_ffff {
        0xffff_ffff
    } else {
        n
    }
}

impl<S> Pool<S> {
    /// The listing that the daemon sends to a client: its connections in
    /// pool order, each with its arrival time and name.
    pub fn listing(&self) -> (r: Vec<u8>)
        ensures
            r@ == listing_bytes(
                listed(self.entries().take(listing_count(self.entries().len()) as int)),
            ),
    {
        let n = self.len();
        let count: usize = if n > 0xffff_ffff {
            0xffff_ffff
        } else {
            n
        };
        let mut out = be_encode(count as u64, 4);
        let ghost cs = self.entries();
        proof {
            assert(listed(cs.take(count as int)).len() == count);
        }
        let mut i: usize = 0;
        assert(listed(cs.take(0)) == Seq::<(u64, Seq<u8>)>::empty());
        assert(out@ + Seq::<u8>::empty() == out@);
        while i < count
            invariant
                cs == self.entries(),
                count <= cs.len(),
                i <= count,
                out@ == be_bytes(count as nat, 4) + entries_bytes(listed(cs.take(i as int))),
            decreases count - i,
        {
            let c = self.get(i);
            let t: u64 = if c.time < 0 {
                0
            } else {
                c.time as u64
            };
            let ghost before = out@;
            let stamp = be_encode(t, 8);
            out.extend_from_slice(stamp.as_slice());
            crate::framing::send_msg(&mut out, c.name.as_slice());
            assert(listed(cs.take(i + 1)).drop_last() == listed(cs.take(i as int)));
            assert(listed(cs.take(i + 1)).last() == (t, c.name@));
            assert(out@ == before + entry_bytes(t, c.name@));
            i = i + 1;
        }
        out
    }
}

/// Whether `s` starts with a whole frame.
pub open spec fn has_frame(s: Seq<u8>) -> bool {
    exists|name: Seq<u8>| #[trigger] starts_with_frame(s, name)
}

/// The entry that starts at `p` in `s`, and where the next one starts.
pub open spec fn entry_at(s: Seq<u8>, p: nat) -> Option<((u64, Seq<u8>), nat)> {
    if p + 8 <= s.len() && has_frame(s.subrange(p + 8 as int, s.len() as int)) {
        let name = choose|name: Seq<u8>| #[trigger] starts_with_frame(s.subrange(p + 8 as int, s.len() as int), name);
        Some(((be_value(s.subrange(p as int, p + 8 as int)) as u64, name), p + 8 + name.len() + 1))
    } else {
        None
    }
}

/// The first `count` entries of the listing `s`, and where they end.
pub open spec fn entries_at(s: Seq<u8>, count: nat) -> Option<(Seq<(u64, Seq<u8>)>, nat)>
    decreases count,
{
    if count == 0 {
        Some((Seq::empty(), 4))
    } else {
        match entries_at(s, (count - 1) as nat) {
            Some((es, p)) => match entry_at(s, p) {
                Some((e, q)) => Some((es.push(e), q)),
                None => None,
            },
            None => None,
        }
    }
}

/// The entries of the listing at the start of `s`, and its length; none
/// where `s` does not hold a whole listing.
pub open spec fn parse_listing_spec(s: Seq<u8>) -> Option<(Seq<(u64, Seq<u8>)>, nat)> {
    if s.len() < 4 {
        None
    } else {
        entries_at(s, be_value(s.subrange(0, 4)))
    }
}

proof fn lemma_entries_none_stays(s: Seq<u8>, c: nat, d: nat)
    requires
        c <= d,
        entries_at(s, c) is None,
    ensures
        entries_at(s, d) is None,
    decreases d,
{
    if c < d {
        lemma_entries_none_stays(s, c, (d - 1) as nat);
    }
}

/// A stream starts with the frame of at most one payload.
pub proof fn lemma_frame_unique(s: Seq<u8>, p: Seq<u8>, q: Seq<u8>)
    requires
        starts_with_frame(s, p),
        starts_with_frame(s, q),
    ensures
        p == q,
{
    let rest = s.subrange(p.len() + 1 as int, s.len() as int);
    assert(s == frame(p) + rest);
    crate::framing::lemma_frame_round_trip(p, rest);
}

/// Reads the frame that starts at `from` in `s`: its payload and where it
/// ends.
fn read_frame_at(s: &[u8], from: usize) -> (r: Option<(Vec<u8>, usize)>)
    requires
        from <= s@.len(),
    ensures
        match r {
            Some((p, end)) => starts_with_frame(s@.subrange(from as int, s@.len() as int), p@)
                && end == from + p@.len() + 1,
            None => !has_frame(s@.subrange(from as int, s@.len() as int)),
        },
{
    let n = s.len();
    let ghost rest = s@.subrange(from as int, n as int);
    let mut payload: Vec<u8> = Vec::new();
    let mut i = from;
    while i < n
        invariant
            n == s@.len(),
            from <= i <= n,
            rest == s@.subrange(from as int, n as int),
            payload@ == s@.subrange(from as int, i as int),
            eot_free(payload@),
        decreases n - i,
    {
        if s[i] == EOT {
            assert(rest.subrange(0, payload@.len() + 1 as int) == frame(payload@));
            return Some((payload, i + 1));
        }
        payload.push(s[i]);
        i = i + 1;
        assert(payload@ == s@.subrange(from as int, i as int));
    }
    assert(payload@ == rest);
    assert forall|name: Seq<u8>| !#[trigger] starts_with_frame(rest, name) by {
        if starts_with_frame(rest, name) {
            assert(rest[name.len() as int] == frame(name)[name.len() as int]);
        }
    }
    None
}

/// A pooled peer as a client reads it from the listing.
pub struct ListedPeer {
    /// When the daemon accepted the peer, in seconds since the Unix epoch.
    pub timestamp: u64,
    pub name: Vec<u8>,
}

pub open spec fn peers_view(ps: Seq<ListedPeer>) -> Seq<(u64, Seq<u8>)> {
    ps.map_values(|p: ListedPeer| (p.timestamp, p.name@))
}

/// Reads the listing at the start of `bytes`: the entries and how many bytes
/// the listing took; none while `bytes` holds only part of a listing.
pub fn parse_listing(bytes: &[u8]) -> (r: Option<(Vec<ListedPeer>, usize)>)
    ensures
        match parse_listing_spec(bytes@) {
            Some((es, n)) => r matches Some((ps, m)) && peers_view(ps@) == es && m == n,
            None => r is None,
        },
{
    let n = bytes.len();
    if n < 4 {
        return None;
    }
    let count = be_decode(bytes, 0, 4);
    let mut peers: Vec<ListedPeer> = Vec::new();
    let mut pos: usize = 4;
    let mut i: u64 = 0;
    assert(peers_view(peers@) == Seq::<(u64, Seq<u8>)>::empty());
    while i < count
        invariant
            n == bytes@.len(),
            count == be_value(bytes@.subrange(0, 4)),
            i <= count,
            pos <= n,
            entries_at(bytes@, i as nat) == Some((peers_view(peers@), pos as nat)),
        decreases count - i,
    {
        if n < 8 || pos > n - 8 {
            proof {
                lemma_entries_none_stays(bytes@, (i + 1) as nat, count as nat);
            }
            return None;
        }
        let stamp = be_decode(bytes, pos, 8);
        match read_frame_at(bytes, pos + 8) {
            Some((name, end)) => {
                let ghost rest = bytes@.subrange(pos + 8, n as int);
                let ghost chosen = choose|nm: Seq<u8>| #[trigger] starts_with_frame(rest, nm);
                proof {
                    lemma_frame_unique(rest, name@, chosen);
                }
                let ghost before = peers_view(peers@);
                peers.push(ListedPeer { timestamp: stamp, name });
                assert(peers_view(peers@) == before.push((stamp, chosen)));
                pos = end;
                i = i + 1;
            },
            None => {
                proof {
                    lemma_entries_none_stays(bytes@, (i + 1) as nat, count as nat);
                }
                return None;
            },
        }
    }
    Some((peers, pos))
}

/// A connection that the daemon offers, as the client keeps it.
pub struct AvailableConnection {
    /// When the daemon accepted the peer, in seconds since the Unix epoch.
    pub time: i64,
    pub name: Vec<u8>,
}

/// Relies on chrono's `DateTime::from_timestamp`, which gives `None` for
/// seconds outside its range of dates (years -262143 to 262142) and
/// otherwise a date whose `DateTime::timestamp` is those seconds.
#[verifier::external_body]
fn checked_timestamp(secs: i64) -> (r: Option<i64>)
    ensures
        r is None || r == Some(secs),
        0 <= secs <= 8_000_000_000_000 ==> r == Some(secs),
{
    chrono::DateTime::from_timestamp(secs, 0).map(|d| d.timestamp())
}

/// The time that a listing gives, where it is a date; otherwise the epoch.
pub fn listed_time(timestamp: u64) -> (r: i64)
    ensures
        timestamp <= 8_000_000_000_000 ==> r == timestamp as i64,
        r == timestamp as i64 || r == 0,
{
    if timestamp > 0x7fff_ffff_ffff_ffff {
        return 0;
    }
    match checked_timestamp(timestamp as i64) {
        Some(t) => t,
        None => 0,
    }
}

/// Picks the first connection offered: the connection as the client keeps
/// it, and the request for it to send to the daemon. Fails where nothing is
/// offered.
pub fn select_offer(peers: Vec<ListedPeer>) -> (r: Result<(AvailableConnection, Vec<u8>), HandoffError>)
    ensures
        peers@.len() == 0 ==> r == Err::<(AvailableConnection, Vec<u8>), HandoffError>(
            HandoffError::NoSocketsAvailable,
        ),
        peers@.len() > 0 ==> (r matches Ok((c, request)) && c.name@ == peers@[0].name@
            && request@ == be_bytes(0, 4) && (peers@[0].timestamp <= 8_000_000_000_000 ==> c.time
            == peers@[0].timestamp as i64) && (c.time == peers@[0].timestamp as i64 || c.time
            == 0)),
{
    if peers.len() == 0 {
        return Err(HandoffError::NoSocketsAvailable);
    }
    let mut peers = peers;
    let p = peers.swap_remove(0);
    let time = listed_time(p.timestamp);
    Ok((AvailableConnection { time, name: p.name }, be_encode(0, 4)))
}

/// The index that a client's four-byte request names.
pub fn requested_index(request: &[u8]) -> (r: u32)
    requires
        request@.len() == 4,
    ensures
        r as nat == be_value(request@),
{
    proof {
        lemma_be_value_bound(request@);
        lemma_pow256_facts();
    }
    assert(request@.subrange(0, 4) == request@);
    be_decode(request, 0, 4) as u32
}

/// Relies on chrono's `Local::now` and `DateTime::timestamp`: the current
/// time in seconds since the Unix epoch. Nothing is promised of its value.
#[verifier::external_body]
fn now_secs() -> i64 {
    chrono::Local::now().timestamp()
}

impl<S> Pool<S> {
    /// Adds a peer accepted now, which announced `name`, or none in time.
    pub fn accept_peer(&mut self, stream: S, address: crate::pool::PeerAddr, name: Option<Vec<u8>>)
        ensures
            final(self).entries().len() == old(self).entries().len() + 1,
            final(self).entries().drop_last() == old(self).entries(),
            final(self).entries().last().stream == stream,
            final(self).entries().last().address == address,
            final(self).entries().last().message_buffer.pending() == Seq::<u8>::empty(),
            final(self).entries().last().name@ == match name {
                Some(n) => n@,
                None => crate::pool::unknown_name(),
            },
    {
        let time = now_secs();
        self.enrol(stream, address, name, time);
    }
}

proof fn lemma_entries_bytes_append(a: Seq<(u64, Seq<u8>)>, b: Seq<(u64, Seq<u8>)>)
    ensures
        entries_bytes(a + b) == entries_bytes(a) + entries_bytes(b),
    decreases b.len(),
{
    if b.len() == 0 {
        assert(a + b == a);
        assert(entries_bytes(a) + Seq::<u8>::empty() == entries_bytes(a));
    } else {
        lemma_entries_bytes_append(a, b.drop_last());
        assert((a + b).drop_last() == a + b.drop_last());
        assert((a + b).last() == b.last());
    }
}

/// The entries named in `es` have no `EOT` in their names.
pub open spec fn names_eot_free(es: Seq<(u64, Seq<u8>)>) -> bool {
    forall|i: int| 0 <= i < es.len() ==> eot_free(#[trigger] es[i].1)
}

proof fn lemma_entries_at_prefix(es: Seq<(u64, Seq<u8>)>, rest: Seq<u8>, k: nat)
    requires
        es.len() <= 0xffff_ffff,
        names_eot_free(es),
        k <= es.len(),
    ensures
        entries_at(listing_bytes(es) + rest, k) == Some(
            (es.take(k as int), 4 + entries_bytes(es.take(k as int)).len()),
        ),
    decreases k,
{
    let s = listing_bytes(es) + rest;
    lemma_be_len(es.len(), 4);
    if k == 0 {
        assert(es.take(0) == Seq::<(u64, Seq<u8>)>::empty());
    } else {
        let j = (k - 1) as nat;
        lemma_entries_at_prefix(es, rest, j);
        let pre = es.take(j as int);
        let e = es[j as int];
        let post = es.subrange(k as int, es.len() as int);
        assert(es.take(k as int) == pre.push(e));
        assert(es == pre.push(e) + post);
        lemma_entries_bytes_append(pre.push(e), post);
        lemma_be_len(e.0 as nat, 8);
        let p = 4 + entries_bytes(pre).len();
        let x = entry_bytes(e.0, e.1);
        let tail = entries_bytes(post) + rest;
        assert(pre.push(e).drop_last() == pre);
        assert(entries_bytes(pre.push(e)) == entries_bytes(pre) + x);
        assert(entries_bytes(es) == entries_bytes(pre) + x + entries_bytes(post));
        assert(s =~= be_bytes(es.len(), 4) + entries_bytes(pre) + x + tail);
        assert(s.subrange(p as int, p + 8 as int) == be_bytes(e.0 as nat, 8));
        assert(s.subrange(p + 8 as int, s.len() as int) == frame(e.1) + tail);
        assert(eot_free(e.1));
        crate::framing::lemma_frame_round_trip(e.1, tail);
        let r = s.subrange(p + 8 as int, s.len() as int);
        assert(starts_with_frame(r, e.1));
        let chosen = choose|name: Seq<u8>| #[trigger] starts_with_frame(r, name);
        lemma_frame_unique(r, e.1, chosen);
        lemma_pow256_facts();
        lemma_be_round_trip(e.0 as nat, 8);
        assert(entry_at(s, p) == Some(((e.0, e.1), p + 8 + e.1.len() + 1)));
        assert(entries_bytes(pre.push(e)) == entries_bytes(pre) + x);
    }
}

/// A client reads back exactly the entries that the daemon listed, and
/// knows where the listing ends, whatever follows it.
pub proof fn lemma_listing_round_trip(es: Seq<(u64, Seq<u8>)>, rest: Seq<u8>)
    requires
        es.len() <= 0xffff_ffff,
        names_eot_free(es),
    ensures
        parse_listing_spec(listing_bytes(es) + rest) == Some((es, listing_bytes(es).len())),
{
    let s = listing_bytes(es) + rest;
    lemma_be_len(es.len(), 4);
    assert(s.subrange(0, 4) == be_bytes(es.len(), 4));
    lemma_pow256_facts();
    lemma_be_round_trip(es.len(), 4);
    lemma_entries_at_prefix(es, rest, es.len());
    assert(es.take(es.len() as int) == es);
}

} // verus!
