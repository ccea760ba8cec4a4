//! The server's settings, from its command line.

use crate::server::number::{
    decimal, hex_key, ip4, is_hex32, parse_decimal, parse_hex32, parse_ip4, Ip4Fault, NumFault,
};
use vstd::prelude::*;

verus! {

/// First TCP port unless one is given.
pub const DEFAULT_BASE_PORT: u16 = 30000;

/// Number of listeners unless one is given.
pub const DEFAULT_NUM_LISTENERS: u16 = 16;

/// Most memory for connections, in MiB, unless a limit is given.
pub const DEFAULT_MEMORY_CAP_MIB: usize = 4096;

pub const LCG_FACTOR: u64 = 6364136223846793005;

pub const LCG_STEP: u64 = 1442695040888963407;

/// What the server runs with. The two UDP addresses stand on the command line at
/// the indices given; the defaults are the caller's.
#[derive(Copy, Clone, Debug)]
pub struct Settings {
    pub listen_udp: Option<usize>,
    pub peer_udp: Option<usize>,
    pub server_ip: [u8; 4],
    pub base_port: u16,
    pub num_listeners: u32,
    pub cookie_secret: Option<[u8; 16]>,
    pub memory_cap_mib: usize,
    pub quiet: bool,
}

/// The settings as a mathematical value.
#[verifier::ext_equal]
pub struct SettingsView {
    pub listen_udp: Option<int>,
    pub peer_udp: Option<int>,
    pub server_ip: Seq<u8>,
    pub base_port: int,
    pub num_listeners: int,
    pub cookie_secret: Option<Seq<u8>>,
    pub memory_cap_mib: int,
    pub quiet: bool,
}

impl View for Settings {
    type V = SettingsView;

    open spec fn view(&self) -> SettingsView {
        SettingsView {
            listen_udp: match self.listen_udp {
                Some(i) => Some(i as int),
                None => None,
            },
            peer_udp: match self.peer_udp {
                Some(i) => Some(i as int),
                None => None,
            },
            server_ip: self.server_ip@,
            base_port: self.base_port as int,
            num_listeners: self.num_listeners as int,
            cookie_secret: match self.cookie_secret {
                Some(k) => Some(k@),
                None => None,
            },
            memory_cap_mib: self.memory_cap_mib as int,
            quiet: self.quiet,
        }
    }
}

/// The options that take a value.
#[derive(Copy, Clone, Debug, PartialEq, Eq, Structural)]
pub enum Flag {
    ListenUdp,
    PeerUdp,
    ServerIp,
    BasePort,
    NumListeners,
    Cookies,
    MemoryCapMib,
}

/// What one argument asks for.
#[derive(Copy, Clone, Debug, PartialEq, Eq, Structural)]
pub enum Word {
    Help,
    Quiet,
    Value(Flag),
    Unknown,
}

/// What is wrong with a value.
#[derive(Copy, Clone, Debug, PartialEq, Eq, Structural)]
pub enum Fault {
    /// It is no UDP address.
    Address,
    Ip4(Ip4Fault),
    Number(NumFault),
    /// It is no key of 32 hexadecimal digits.
    Key,
}

/// What is wrong with a command line.
#[derive(Copy, Clone, Debug, PartialEq, Eq, Structural)]
pub enum ArgError {
    /// The argument at this index is unknown.
    Unknown(usize),
    /// The option at this index lacks its value.
    NoValue(usize),
    /// The option at this index has a value with a fault.
    BadValue(usize, Fault),
    /// The number of listeners is zero or beyond a port number.
    Listeners(u32),
    /// The listeners' ports go beyond the last port.
    Ports(u16, u32),
}

/// What a command line asks for.
pub enum Request {
    Help,
    Run(Settings),
}

/// The bytes of `b` spell `w`.
pub open spec fn spells(b: Seq<u8>, w: Seq<char>) -> bool {
    b.len() == w.len() && forall|i: int| 0 <= i < b.len() ==> #[trigger] b[i] as char == w[i]
}

/// What the argument `b` asks for.
pub open spec fn word(b: Seq<u8>) -> Word {
    if spells(b, "-h"@) || spells(b, "--help"@) {
        Word::Help
    } else if spells(b, "--listen-udp"@) {
        Word::Value(Flag::ListenUdp)
    } else if spells(b, "--peer-udp"@) {
        Word::Value(Flag::PeerUdp)
    } else if spells(b, "--server-ip"@) {
        Word::Value(Flag::ServerIp)
    } else if spells(b, "--base-port"@) {
        Word::Value(Flag::BasePort)
    } else if spells(b, "--num-listeners"@) {
        Word::Value(Flag::NumListeners)
    } else if spells(b, "--cookies"@) {
        Word::Value(Flag::Cookies)
    } else if spells(b, "--memory-cap-mib"@) {
        Word::Value(Flag::MemoryCapMib)
    } else if spells(b, "--quiet"@) {
        Word::Quiet
    } else {
        Word::Unknown
    }
}

/// The next number of a linear congruential generator.
pub open spec fn lcg(x: u64) -> u64 {
    x.wrapping_mul(LCG_FACTOR).wrapping_add(LCG_STEP)
}

/// Byte `i` of `x`, lowest first.
pub open spec fn le_byte(x: u64, i: int) -> u8 {
    (x >> ((8 * i) as u64)) as u8
}

/// The key that grows from `seed`: two numbers of the generator, lowest byte
/// first.
pub open spec fn grown_key(seed: u64) -> Seq<u8> {
    Seq::new(
        16,
        |i: int|
            if i < 8 {
                le_byte(lcg(lcg(seed)), i)
            } else {
                le_byte(lcg(lcg(lcg(seed))), i - 8)
            },
    )
}

/// The settings before the command line is read.
pub open spec fn defaults() -> SettingsView {
    SettingsView {
        listen_udp: None,
        peer_udp: None,
        server_ip: seq![10u8, 99u8, 0u8, 2u8],
        base_port: DEFAULT_BASE_PORT as int,
        num_listeners: DEFAULT_NUM_LISTENERS as int,
        cookie_secret: None,
        memory_cap_mib: DEFAULT_MEMORY_CAP_MIB as int,
        quiet: false,
    }
}

/// The settings after the option `f` with the value `v`, which stands at index
/// `at` and is a UDP address or not.
pub open spec fn with_value(
    s: SettingsView,
    f: Flag,
    v: Seq<u8>,
    at: int,
    is_addr: bool,
    seed: u64,
) -> Result<SettingsView, Fault> {
    match f {
        Flag::ListenUdp => if is_addr {
            Ok(SettingsView { listen_udp: Some(at), ..s })
        } else {
            Err(Fault::Address)
        },
        Flag::PeerUdp => if is_addr {
            Ok(SettingsView { peer_udp: Some(at), ..s })
        } else {
            Err(Fault::Address)
        },
        Flag::ServerIp => match ip4(v) {
            Ok(a) => Ok(SettingsView { server_ip: a, ..s }),
            Err(e) => Err(Fault::Ip4(e)),
        },
        Flag::BasePort => match decimal(v, u16::MAX as int) {
            Ok(n) => Ok(SettingsView { base_port: n, ..s }),
            Err(e) => Err(Fault::Number(e)),
        },
        Flag::NumListeners => match decimal(v, u32::MAX as int) {
            Ok(n) => Ok(SettingsView { num_listeners: n, ..s }),
            Err(e) => Err(Fault::Number(e)),
        },
        Flag::Cookies => if spells(v, "none"@) {
            Ok(SettingsView { cookie_secret: None, ..s })
        } else if spells(v, "random"@) {
            Ok(SettingsView { cookie_secret: Some(grown_key(seed)), ..s })
        } else if is_hex32(v) {
            Ok(SettingsView { cookie_secret: Some(hex_key(v)), ..s })
        } else {
            Err(Fault::Key)
        },
        Flag::MemoryCapMib => match decimal(v, usize::MAX as int) {
            Ok(n) => Ok(SettingsView { memory_cap_mib: n, ..s }),
            Err(e) => Err(Fault::Number(e)),
        },
    }
}

/// What a command line asks for, as a mathematical value.
pub enum RequestView {
    Help,
    Run(SettingsView),
}

/// The settings, if the listeners have ports to listen on.
pub open spec fn in_range(s: SettingsView) -> Result<RequestView, ArgError> {
    if s.num_listeners == 0 || s.num_listeners > u16::MAX {
        Err(ArgError::Listeners(s.num_listeners as u32))
    } else if s.base_port + s.num_listeners > u16::MAX + 1 {
        Err(ArgError::Ports(s.base_port as u16, s.num_listeners as u32))
    } else {
        Ok(RequestView::Run(s))
    }
}

/// What the arguments from index `i` on ask for, after the settings `s`. Of each
/// argument `addrs` says whether it is a UDP address. The first fault from the left
/// counts, and so does the first call for help.
pub open spec fn asked(
    args: Seq<Seq<u8>>,
    addrs: Seq<bool>,
    seed: u64,
    i: int,
    s: SettingsView,
) -> Result<RequestView, ArgError>
    decreases args.len() - i,
{
    if i >= args.len() {
        in_range(s)
    } else {
        match word(args[i]) {
            Word::Help => Ok(RequestView::Help),
            Word::Quiet => asked(args, addrs, seed, i + 1, SettingsView { quiet: true, ..s }),
            Word::Unknown => Err(ArgError::Unknown(i as usize)),
            Word::Value(f) => if i + 1 >= args.len() {
                Err(ArgError::NoValue(i as usize))
            } else {
                match with_value(s, f, args[i + 1], i + 1, addrs[i + 1], seed) {
                    Err(e) => Err(ArgError::BadValue(i as usize, e)),
                    Ok(t) => asked(args, addrs, seed, i + 2, t),
                }
            },
        }
    }
}

/// The arguments as sequences of bytes.
pub open spec fn as_bytes(args: Seq<Vec<u8>>) -> Seq<Seq<u8>> {
    Seq::new(args.len(), |i: int| args[i]@)
}

fn is_word(b: &[u8], w: &str) -> (r: bool)
    ensures
        r == spells(b@, w@),
{
    let n: usize = w.unicode_len();
    if b.len() != n {
        return false;
    }
    let mut i: usize = 0;
    while i < n
        invariant
            i <= n,
            n == w@.len(),
            b@.len() == n,
            forall|j: int| 0 <= j < i ==> #[trigger] b@[j] as char == w@[j],
        decreases n - i,
    {
        if b[i] as char != w.get_char(i) {
            return false;
        }
        i = i + 1;
    }
    true
}

/// Says what an argument asks for.
pub fn read_word(b: &[u8]) -> (w: Word)
    ensures
        w == word(b@),
{
    if is_word(b, "-h") || is_word(b, "--help") {
        Word::Help
    } else if is_word(b, "--listen-udp") {
        Word::Value(Flag::ListenUdp)
    } else if is_word(b, "--peer-udp") {
        Word::Value(Flag::PeerUdp)
    } else if is_word(b, "--server-ip") {
        Word::Value(Flag::ServerIp)
    } else if is_word(b, "--base-port") {
        Word::Value(Flag::BasePort)
    } else if is_word(b, "--num-listeners") {
        Word::Value(Flag::NumListeners)
    } else if is_word(b, "--cookies") {
        Word::Value(Flag::Cookies)
    } else if is_word(b, "--memory-cap-mib") {
        Word::Value(Flag::MemoryCapMib)
    } else if is_word(b, "--quiet") {
        Word::Quiet
    } else {
        Word::Unknown
    }
}

fn next_lcg(x: u64) -> (y: u64)
    ensures
        y == lcg(x),
{
    x.wrapping_mul(LCG_FACTOR).wrapping_add(LCG_STEP)
}

/// Grows a key from a seed.
pub fn key_from_seed(seed: u64) -> (k: [u8; 16])
    ensures
        k@ == grown_key(seed),
{
    let a: u64 = next_lcg(next_lcg(seed));
    let b: u64 = next_lcg(a);
    let mut k: [u8; 16] = [0; 16];
    let mut i: usize = 0;
    while i < 8
        invariant
            i <= 8,
            forall|j: int| 0 <= j < i ==> #[trigger] k@[j] == le_byte(a, j),
            forall|j: int| 8 <= j < 8 + i ==> #[trigger] k@[j] == le_byte(b, j - 8),
        decreases 8 - i,
    {
        k[i] = (a >> (8 * i as u64)) as u8;
        k[8 + i] = (b >> (8 * i as u64)) as u8;
        i = i + 1;
    }
    assert(k@ =~= grown_key(seed));
    k
}

impl Settings {
    /// The settings before the command line is read.
    pub fn new() -> (s: Self)
        ensures
            s@ == defaults(),
    {
        let s = Settings {
            listen_udp: None,
            peer_udp: None,
            server_ip: [10, 99, 0, 2],
            base_port: DEFAULT_BASE_PORT,
            num_listeners: DEFAULT_NUM_LISTENERS as u32,
            cookie_secret: None,
            memory_cap_mib: DEFAULT_MEMORY_CAP_MIB,
            quiet: false,
        };
        assert(s@ =~= defaults());
        s
    }

    /// Takes the option `f` with the value `v`, which stands at index `at`.
    pub fn take(&mut self, f: Flag, v: &[u8], at: usize, is_addr: bool, seed: u64) -> (r: Result<
        (),
        Fault,
    >)
        ensures
            match with_value(old(self)@, f, v@, at as int, is_addr, seed) {
                Ok(t) => r is Ok && final(self)@ == t,
                Err(e) => r == Err::<(), Fault>(e) && final(self)@ == old(self)@,
            },
    {
        match f {
            Flag::ListenUdp => {
                if !is_addr {
                    return Err(Fault::Address);
                }
                self.listen_udp = Some(at);
            },
            Flag::PeerUdp => {
                if !is_addr {
                    return Err(Fault::Address);
                }
                self.peer_udp = Some(at);
            },
            Flag::ServerIp => match parse_ip4(v) {
                Ok(a) => {
                    self.server_ip = a;
                },
                Err(e) => {
                    return Err(Fault::Ip4(e));
                },
            },
            Flag::BasePort => match parse_decimal(v, u16::MAX as u64) {
                Ok(n) => {
                    self.base_port = n as u16;
                },
                Err(e) => {
                    return Err(Fault::Number(e));
                },
            },
            Flag::NumListeners => match parse_decimal(v, u32::MAX as u64) {
                Ok(n) => {
                    self.num_listeners = n as u32;
                },
                Err(e) => {
                    return Err(Fault::Number(e));
                },
            },
            Flag::Cookies => {
                if is_word(v, "none") {
                    self.cookie_secret = None;
                } else if is_word(v, "random") {
                    self.cookie_secret = Some(key_from_seed(seed));
                } else {
                    match parse_hex32(v) {
                        Some(k) => {
                            self.cookie_secret = Some(k);
                        },
                        None => {
                            return Err(Fault::Key);
                        },
                    }
                }
            },
            Flag::MemoryCapMib => match parse_decimal(v, usize::MAX as u64) {
                Ok(n) => {
                    self.memory_cap_mib = n as usize;
                },
                Err(e) => {
                    return Err(Fault::Number(e));
                },
            },
        }
        Ok(())
    }
}

/// Reads a command line. Of each argument `addrs` says whether it is a UDP address;
/// a random key grows from `seed`.
pub fn parse_args(args: &Vec<Vec<u8>>, addrs: &Vec<bool>, seed: u64) -> (r: Result<Request, ArgError>)
    requires
        args@.len() == addrs@.len(),
    ensures
        match asked(as_bytes(args@), addrs@, seed, 0, defaults()) {
            Ok(RequestView::Help) => r matches Ok(q) && q is Help,
            Ok(RequestView::Run(v)) => r matches Ok(Request::Run(s)) && s@ == v,
            Err(e) => r == Err::<Request, ArgError>(e),
        },
{
    let mut s = Settings::new();
    let mut i: usize = 0;
    let ghost all = as_bytes(args@);
    while i < args.len()
        invariant
            i <= args@.len(),
            args@.len() == addrs@.len(),
            all == as_bytes(args@),
            asked(all, addrs@, seed, 0, defaults()) == asked(all, addrs@, seed, i as int, s@),
        decreases args@.len() - i,
    {
        let ghost before = s@;
        match read_word(args[i].as_slice()) {
            Word::Help => {
                return Ok(Request::Help);
            },
            Word::Unknown => {
                return Err(ArgError::Unknown(i));
            },
            Word::Quiet => {
                s.quiet = true;
                assert(s@ =~= (SettingsView { quiet: true, ..before }));
                i = i + 1;
            },
            Word::Value(f) => {
                if i + 1 >= args.len() {
                    return Err(ArgError::NoValue(i));
                }
                match s.take(f, args[i + 1].as_slice(), i + 1, addrs[i + 1], seed) {
                    Err(e) => {
                        return Err(ArgError::BadValue(i, e));
                    },
                    Ok(_) => {},
                }
                i = i + 2;
            },
        }
    }
    if s.num_listeners == 0 || s.num_listeners > u16::MAX as u32 {
        return Err(ArgError::Listeners(s.num_listeners));
    }
    if s.base_port as u64 + s.num_listeners as u64 > u16::MAX as u64 + 1 {
        return Err(ArgError::Ports(s.base_port, s.num_listeners));
    }
    Ok(Request::Run(s))
}

/// Settings are accepted exactly if they give every listener a port: there is at least one
/// listener, and the last port is not beyond the last that there is.
pub proof fn law_accepted_settings_have_ports(s: SettingsView)
    requires
        s.base_port >= 0 && s.num_listeners >= 0,
    ensures
        in_range(s) == Ok::<RequestView, ArgError>(RequestView::Run(s)) <==> 1 <= s.num_listeners
            <= 65535 && s.base_port + s.num_listeners - 1 <= 65535,
{
}

/// The settings without a command line: sixteen listeners from port 30000 on, without
/// cookies.
pub proof fn law_settings_have_defaults(addrs: Seq<bool>, seed: u64)
    ensures
        asked(Seq::empty(), addrs, seed, 0, defaults()) matches Ok(RequestView::Run(t))
            && t.base_port == 30000 && t.num_listeners == 16 && t.cookie_secret is None
            && t.memory_cap_mib == 4096 && !t.quiet && t.listen_udp is None && t.peer_udp is None,
{
}

} // verus!
