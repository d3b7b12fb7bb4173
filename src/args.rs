//! Command-line arguments: sorting them into short flags, long flags and
//! positional arguments, and choosing what the chat does from them.
use vstd::prelude::*;
use crate::address::{decimal_value, ipv4_octets, parse_ipv4, parse_port, split_dots, DEFAULT_PORT};

verus! {

/// The byte `-` that starts a flag.
pub const DASH: u8 = 0x2d;

/// Whether a byte continues a UTF-8 character begun by an earlier byte.
pub open spec fn is_continuation(b: u8) -> bool {
    0x80 <= b < 0xc0
}

/// The characters of UTF-8 text, each as its bytes.
pub open spec fn utf8_chars(s: Seq<u8>) -> Seq<Seq<u8>>
    decreases s.len(),
{
    if s.len() == 0 {
        Seq::empty()
    } else {
        let chars = utf8_chars(s.drop_last());
        if is_continuation(s.last()) && chars.len() > 0 {
            chars.update(chars.len() - 1, chars.last().push(s.last()))
        } else {
            chars.push(seq![s.last()])
        }
    }
}

/// The byte strings in `v`.
pub open spec fn views(v: Seq<Vec<u8>>) -> Seq<Seq<u8>> {
    v.map_values(|x: Vec<u8>| x@)
}

/// `--`, after which every argument is positional.
pub open spec fn is_end_of_options(a: Seq<u8>) -> bool {
    a == seq![DASH, DASH]
}

pub open spec fn is_long(a: Seq<u8>) -> bool {
    a.len() >= 2 && a[0] == DASH && a[1] == DASH
}

pub open spec fn is_short(a: Seq<u8>) -> bool {
    a.len() >= 2 && a[0] == DASH
}

/// The three lists that arguments are sorted into.
pub struct ArgLists {
    pub short: Seq<Seq<u8>>,
    pub long: Seq<Seq<u8>>,
    pub other: Seq<Seq<u8>>,
}

/// The lists for `args`, which do not hold the program's name. A long flag
/// `--name` gives `name`; a short cluster `-xy` gives one flag per character;
/// `-` alone and any other argument is positional; `--` makes every later
/// argument positional.
pub open spec fn gathered(args: Seq<Seq<u8>>) -> ArgLists
    decreases args.len(),
{
    if args.len() == 0 {
        ArgLists { short: Seq::empty(), long: Seq::empty(), other: Seq::empty() }
    } else {
        let a = args[0];
        let rest = gathered(args.drop_first());
        if is_end_of_options(a) {
            ArgLists { short: Seq::empty(), long: Seq::empty(), other: args.drop_first() }
        } else if is_long(a) {
            ArgLists {
                short: rest.short,
                long: seq![a.subrange(2, a.len() as int)] + rest.long,
                other: rest.other,
            }
        } else if is_short(a) {
            ArgLists { short: utf8_chars(a.drop_first()) + rest.short, long: rest.long, other: rest.other }
        } else {
            ArgLists { short: rest.short, long: rest.long, other: seq![a] + rest.other }
        }
    }
}

pub open spec fn join(a: ArgLists, b: ArgLists) -> ArgLists {
    ArgLists { short: a.short + b.short, long: a.long + b.long, other: a.other + b.other }
}

/// The arguments of a run, sorted.
pub struct Args {
    short: Vec<Vec<u8>>,
    long: Vec<Vec<u8>>,
    other: Vec<Vec<u8>>,
}

/// What the command line asks for.
pub enum Mode {
    /// Print the help text.
    Help,
    /// Wait for a peer on this port.
    Host(u16),
    /// Take a connection that the daemon holds.
    FromDaemon,
    /// Connect to this IPv4 address and port.
    Connect([u8; 4], u16),
}

/// Why the command line cannot be acted on.
#[derive(Debug, Clone, Copy, PartialEq, Eq, Structural)]
pub enum ArgError {
    TooManyArguments,
    BadPort,
    BadAddress,
}

pub open spec fn has(list: Seq<Seq<u8>>, w: Seq<u8>) -> bool {
    exists|i: int| 0 <= i < list.len() && list[i] == w
}

pub open spec fn help_word() -> Seq<u8> {
    seq![0x68u8, 0x65, 0x6c, 0x70]
}

pub open spec fn server_word() -> Seq<u8> {
    seq![0x73u8, 0x65, 0x72, 0x76, 0x65, 0x72]
}

/// The flag `h` or `help` asks for help.
pub open spec fn wants_help(a: ArgLists) -> bool {
    has(a.long, help_word()) || has(a.short, seq![0x68u8])
}

/// The flag `s` or `server` asks to wait for a peer.
pub open spec fn wants_server(a: ArgLists) -> bool {
    has(a.short, seq![0x73u8]) || has(a.long, server_word())
}

/// Connecting to the address `addr` on `port`, as `mode` says.
pub open spec fn connect_result(addr: Seq<u8>, port: u16, r: Result<Mode, ArgError>) -> bool {
    if split_dots(addr).len() == 4 {
        r matches Ok(Mode::Connect(octets, p)) && octets@ == ipv4_octets(addr) && p == port
    } else {
        r == Err::<Mode, ArgError>(ArgError::BadAddress)
    }
}

fn utf8_split(s: &Vec<u8>, from: usize) -> (r: Vec<Vec<u8>>)
    requires
        from <= s@.len(),
    ensures
        views(r@) == utf8_chars(s@.subrange(from as int, s@.len() as int)),
{
    let mut chars: Vec<Vec<u8>> = Vec::new();
    let mut current: Vec<u8> = Vec::new();
    let mut i = from;
    assert(s@.subrange(from as int, from as int) == Seq::<u8>::empty());
    while i < s.len()
        invariant
            from <= i <= s@.len(),
            current@.len() == 0 ==> i == from,
            utf8_chars(s@.subrange(from as int, i as int)) == if current@.len() == 0 {
                views(chars@)
            } else {
                views(chars@).push(current@)
            },
        decreases s@.len() - i,
    {
        let b = s[i];
        let ghost before = s@.subrange(from as int, i as int);
        assert(s@.subrange(from as int, i + 1) == before.push(b));
        assert(s@.subrange(from as int, i + 1).drop_last() == before);
        let ghost chars0 = views(chars@);
        let ghost cur0 = current@;
        if 0x80 <= b && b < 0xc0 && current.len() > 0 {
            current.push(b);
            assert(views(chars@) =~= chars0);
            assert(chars0.push(cur0).update(chars0.len() as int, cur0.push(b)) =~= chars0.push(
                cur0.push(b),
            ));
        } else {
            if current.len() > 0 {
                let mut done: Vec<u8> = Vec::new();
                std::mem::swap(&mut done, &mut current);
                chars.push(done);
                assert(views(chars@) =~= chars0.push(cur0));
            } else {
                assert(views(chars@) =~= chars0);
            }
            current.push(b);
            assert(current@ =~= seq![b]);
        }
        i = i + 1;
    }
    if current.len() > 0 {
        let ghost chars0 = views(chars@);
        chars.push(current);
        assert(views(chars@) =~= chars0.push(current@));
    }
    assert(s@.subrange(from as int, s@.len() as int) == s@.subrange(from as int, i as int));
    chars
}

/// The arguments after the program's name.
pub open spec fn program_args(argv: Seq<Seq<u8>>) -> Seq<Seq<u8>> {
    if argv.len() == 0 {
        argv
    } else {
        argv.drop_first()
    }
}

fn copy_from(a: &Vec<u8>, from: usize) -> (r: Vec<u8>)
    requires
        from <= a@.len(),
    ensures
        r@ == a@.subrange(from as int, a@.len() as int),
{
    let mut r: Vec<u8> = Vec::new();
    let mut i = from;
    while i < a.len()
        invariant
            from <= i <= a@.len(),
            r@ == a@.subrange(from as int, i as int),
        decreases a@.len() - i,
    {
        r.push(a[i]);
        i = i + 1;
        assert(r@ == a@.subrange(from as int, i as int));
    }
    r
}

fn same_bytes(a: &[u8], b: &[u8]) -> (r: bool)
    ensures
        r == (a@ == b@),
{
    if a.len() != b.len() {
        return false;
    }
    let mut i: usize = 0;
    while i < a.len()
        invariant
            i <= a@.len() == b@.len(),
            a@.subrange(0, i as int) == b@.subrange(0, i as int),
        decreases a@.len() - i,
    {
        if a[i] != b[i] {
            return false;
        }
        i = i + 1;
        assert(a@.subrange(0, i as int) == a@.subrange(0, i - 1).push(a@[i - 1]));
        assert(b@.subrange(0, i as int) == b@.subrange(0, i - 1).push(b@[i - 1]));
    }
    assert(a@ == a@.subrange(0, i as int));
    assert(b@ == b@.subrange(0, i as int));
    true
}

fn has_word(list: &Vec<Vec<u8>>, w: &[u8]) -> (r: bool)
    ensures
        r == has(views(list@), w@),
{
    let mut i: usize = 0;
    while i < list.len()
        invariant
            i <= list@.len(),
            forall|j: int| 0 <= j < i ==> list@[j]@ != w@,
        decreases list@.len() - i,
    {
        if same_bytes(list[i].as_slice(), w) {
            assert(views(list@)[i as int] == w@);
            return true;
        }
        i = i + 1;
    }
    assert forall|j: int| 0 <= j < views(list@).len() implies views(list@)[j] != w@ by {
        assert(views(list@)[j] == list@[j]@);
    }
    false
}

impl Args {
    /// The three lists.
    pub closed spec fn lists(&self) -> ArgLists {
        ArgLists { short: views(self.short@), long: views(self.long@), other: views(self.other@) }
    }

    /// Sorts the arguments `argv` of a run, whose first one is the
    /// program's name.
    pub fn gather(argv: &Vec<Vec<u8>>) -> (r: Args)
        ensures
            r.lists() == gathered(program_args(views(argv@))),
    {
        let mut args = Args { short: Vec::new(), long: Vec::new(), other: Vec::new() };
        let ghost all = program_args(views(argv@));
        let mut i: usize = 1;
        if argv.len() == 0 {
            assert(views(args.short@) =~= Seq::<Seq<u8>>::empty());
            assert(views(args.long@) =~= Seq::<Seq<u8>>::empty());
            assert(views(args.other@) =~= Seq::<Seq<u8>>::empty());
            assert(all =~= Seq::<Seq<u8>>::empty());
            return args;
        }
        assert(views(argv@).subrange(1, argv@.len() as int) == all);
        while i < argv.len()
            invariant
                1 <= i <= argv@.len(),
                all == views(argv@).drop_first(),
                gathered(all) == join(
                    args.lists(),
                    gathered(views(argv@).subrange(i as int, argv@.len() as int)),
                ),
            decreases argv@.len() - i,
        {
            let a = &argv[i];
            let ghost lists0 = args.lists();
            let ghost rest = views(argv@).subrange(i as int, argv@.len() as int);
            let ghost after = views(argv@).subrange(i + 1, argv@.len() as int);
            assert(rest[0] == a@);
            assert(rest.drop_first() == after);
            if a.len() == 2 && a[0] == DASH && a[1] == DASH {
                assert(a@ == seq![DASH, DASH]);
                let mut j = i + 1;
                assert(views(argv@).subrange(i + 1, j as int) == Seq::<Seq<u8>>::empty());
                assert(args.lists().other + Seq::<Seq<u8>>::empty() == args.lists().other);
                while j < argv.len()
                    invariant
                        i + 1 <= j <= argv@.len(),
                        args.lists().short == lists0.short,
                        args.lists().long == lists0.long,
                        args.lists().other == lists0.other + views(argv@).subrange(i + 1, j as int),
                    decreases argv@.len() - j,
                {
                    let ghost other0 = views(args.other@);
                    let c = copy_from(&argv[j], 0);
                    assert(argv@[j as int]@.subrange(0, argv@[j as int]@.len() as int) == argv@[j as int]@);
                    args.other.push(c);
                    assert(views(args.other@) == other0.push(c@));
                    assert(views(argv@).subrange(i + 1, j + 1) == views(argv@).subrange(i + 1, j as int).push(
                        argv@[j as int]@,
                    ));
                    j = j + 1;
                }
                assert(args.lists() == join(lists0, gathered(rest)));
                assert(join(lists0, gathered(rest)).short == lists0.short + Seq::<Seq<u8>>::empty());
                assert(lists0.short + Seq::<Seq<u8>>::empty() == lists0.short);
                assert(lists0.long + Seq::<Seq<u8>>::empty() == lists0.long);
                return args;
            }
            let ghost tail = gathered(after);
            if a.len() >= 2 && a[0] == DASH && a[1] == DASH {
                let c = copy_from(a, 2);
                args.long.push(c);
                assert(views(args.long@) == lists0.long.push(c@));
                assert(lists0.long.push(c@) + tail.long == lists0.long + (seq![c@] + tail.long));
            } else if a.len() >= 2 && a[0] == DASH {
                let mut chars = utf8_split(a, 1);
                assert(a@.subrange(1, a@.len() as int) == a@.drop_first());
                let ghost cs = views(chars@);
                args.short.append(&mut chars);
                assert(views(args.short@) == lists0.short + cs);
                assert(lists0.short + cs + tail.short == lists0.short + (cs + tail.short));
            } else {
                let c = copy_from(a, 0);
                assert(a@.subrange(0, a@.len() as int) == a@);
                args.other.push(c);
                assert(views(args.other@) == lists0.other.push(c@));
                assert(lists0.other.push(c@) + tail.other == lists0.other + (seq![c@] + tail.other));
            }
            i = i + 1;
            assert(args.lists().short + tail.short == gathered(all).short);
            assert(args.lists().long + tail.long == gathered(all).long);
            assert(args.lists().other + tail.other == gathered(all).other);
        }
        assert(views(argv@).subrange(i as int, argv@.len() as int) == Seq::<Seq<u8>>::empty());
        assert(args.lists().short + Seq::<Seq<u8>>::empty() == args.lists().short);
        assert(args.lists().long + Seq::<Seq<u8>>::empty() == args.lists().long);
        assert(args.lists().other + Seq::<Seq<u8>>::empty() == args.lists().other);
        args
    }

    /// What the arguments ask for. Help wins over everything. As a server,
    /// at most one positional argument, the port. Otherwise none takes a
    /// connection from the daemon, and one or two are an address and a port.
    /// The port is read before the address; the default port is 9567.
    pub fn mode(&self) -> (r: Result<Mode, ArgError>)
        ensures
            wants_help(self.lists()) ==> r matches Ok(Mode::Help),
            !wants_help(self.lists()) && wants_server(self.lists()) ==> {
                let other = self.lists().other;
                if other.len() > 1 {
                    r == Err::<Mode, ArgError>(ArgError::TooManyArguments)
                } else if other.len() == 1 {
                    match decimal_value(other[0], 0xffff) {
                        Some(p) => r matches Ok(Mode::Host(q)) && q == p,
                        None => r == Err::<Mode, ArgError>(ArgError::BadPort),
                    }
                } else {
                    r matches Ok(Mode::Host(q)) && q == DEFAULT_PORT
                }
            },
            !wants_help(self.lists()) && !wants_server(self.lists()) ==> {
                let other = self.lists().other;
                if other.len() == 0 {
                    r matches Ok(Mode::FromDaemon)
                } else if other.len() > 2 {
                    r == Err::<Mode, ArgError>(ArgError::TooManyArguments)
                } else if other.len() == 1 {
                    connect_result(other[0], DEFAULT_PORT, r)
                } else {
                    match decimal_value(other[1], 0xffff) {
                        Some(p) => connect_result(other[0], p as u16, r),
                        None => r == Err::<Mode, ArgError>(ArgError::BadPort),
                    }
                }
            },
    {
        let help: [u8; 4] = [0x68, 0x65, 0x6c, 0x70];
        let h: [u8; 1] = [0x68];
        let server: [u8; 6] = [0x73, 0x65, 0x72, 0x76, 0x65, 0x72];
        let s: [u8; 1] = [0x73];
        assert(help@ == help_word());
        assert(server@ == server_word());
        assert(h@ == seq![0x68u8]);
        assert(s@ == seq![0x73u8]);
        if has_word(&self.long, &help) || has_word(&self.short, &h) {
            return Ok(Mode::Help);
        }
        if has_word(&self.short, &s) || has_word(&self.long, &server) {
            if self.other.len() > 1 {
                return Err(ArgError::TooManyArguments);
            } else if self.other.len() == 1 {
                assert(self.lists().other[0] == self.other@[0]@);
                return match parse_port(self.other[0].as_slice()) {
                    Some(p) => Ok(Mode::Host(p)),
                    None => Err(ArgError::BadPort),
                };
            }
            return Ok(Mode::Host(DEFAULT_PORT));
        }
        if self.other.len() == 0 {
            return Ok(Mode::FromDaemon);
        } else if self.other.len() > 2 {
            return Err(ArgError::TooManyArguments);
        }
        assert(self.lists().other[0] == self.other@[0]@);
        let mut port = DEFAULT_PORT;
        if self.other.len() == 2 {
            assert(self.lists().other[1] == self.other@[1]@);
            match parse_port(self.other[1].as_slice()) {
                Some(p) => {
                    port = p;
                },
                None => {
                    return Err(ArgError::BadPort);
                },
            }
        }
        match parse_ipv4(self.other[0].as_slice()) {
            Ok(address) => Ok(Mode::Connect(address, port)),
            Err(_) => Err(ArgError::BadAddress),
        }
    }
}

} // verus!
