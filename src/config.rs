use vstd::prelude::*;

use crate::classify::{classify, InvalidRoot};

verus! {

/// Why a port argument was refused, in the terms of integer parsing.
#[derive(Clone, Copy, Debug, PartialEq, Eq, Structural)]
pub enum PortError {
    Empty,
    InvalidDigit,
    PosOverflow,
}

impl PortError {
    /// The text shown to the user for this error.
    pub fn message(&self) -> (r: &'static str)
        ensures
            *self == PortError::Empty ==> r@ == "cannot parse integer from empty string"@,
            *self == PortError::InvalidDigit ==> r@ == "invalid digit found in string"@,
            *self == PortError::PosOverflow ==> r@ == "number too large to fit in target type"@,
    {
        match self {
            PortError::Empty => "cannot parse integer from empty string",
            PortError::InvalidDigit => "invalid digit found in string",
            PortError::PosOverflow => "number too large to fit in target type",
        }
    }
}

pub open spec fn is_digit(c: char) -> bool {
    '0' <= c && c <= '9'
}

pub open spec fn digit_value(c: char) -> int {
    c as int - '0' as int
}

/// Reads decimal digits from the left. The first character that is not a digit,
/// or the first digit that takes the value past the largest port, ends the reading
/// with an error.
pub open spec fn read_digits(d: Seq<char>) -> Result<int, PortError>
    decreases d.len(),
{
    if d.len() == 0 {
        Ok(0)
    } else {
        match read_digits(d.drop_last()) {
            Err(e) => Err(e),
            Ok(v) => if !is_digit(d.last()) {
                Err(PortError::InvalidDigit)
            } else if v * 10 + digit_value(d.last()) > 65535 {
                Err(PortError::PosOverflow)
            } else {
                Ok(v * 10 + digit_value(d.last()))
            },
        }
    }
}

/// A port written in decimal, with an optional leading `+`.
pub open spec fn port_of(s: Seq<char>) -> Result<int, PortError> {
    if s.len() == 0 {
        Err(PortError::Empty)
    } else if s[0] == '+' && s.len() > 1 {
        read_digits(s.drop_first())
    } else {
        read_digits(s)
    }
}

proof fn lemma_read_digits_range(d: Seq<char>)
    ensures
        read_digits(d) matches Ok(v) ==> 0 <= v <= 65535,
    decreases d.len(),
{
    if d.len() > 0 {
        lemma_read_digits_range(d.drop_last());
    }
}

/// Parses a port number.
pub fn parse_port(s: &str) -> (r: Result<u16, PortError>)
    ensures
        match port_of(s@) {
            Ok(v) => r == Ok::<u16, PortError>(v as u16),
            Err(e) => r == Err::<u16, PortError>(e),
        },
{
    let n = s.unicode_len();
    if n == 0 {
        return Err(PortError::Empty);
    }
    let mut i: usize = 0;
    if s.get_char(0) == '+' && n > 1 {
        i = 1;
    }
    let start: usize = i;
    let ghost d = s@.subrange(start as int, n as int);
    assert(port_of(s@) == read_digits(d)) by {
        if start == 1 {
            assert(d =~= s@.drop_first());
        } else {
            assert(d =~= s@);
        }
    }
    let mut v: u32 = 0;
    while i < n
        invariant
            start <= i <= n,
            n == s@.len(),
            d == s@.subrange(start as int, n as int),
            port_of(s@) == read_digits(d),
            read_digits(s@.subrange(start as int, i as int)) == Ok::<int, PortError>(v as int),
            v <= 65535,
        decreases n - i,
    {
        let c = s.get_char(i);
        let ghost pre = s@.subrange(start as int, i as int);
        let ghost cur = s@.subrange(start as int, i as int + 1);
        assert(cur.drop_last() =~= pre);
        if !('0' <= c && c <= '9') {
            proof { lemma_prefix_error(d, cur); }
            return Err(PortError::InvalidDigit);
        }
        let next: u32 = v * 10 + (c as u32 - '0' as u32);
        if next > 65535 {
            proof { lemma_prefix_error(d, cur); }
            return Err(PortError::PosOverflow);
        }
        v = next;
        i = i + 1;
    }
    assert(s@.subrange(start as int, n as int) =~= d);
    Ok(v as u16)
}

/// Once a prefix of the digits fails, the whole reading fails the same way.
proof fn lemma_prefix_error(d: Seq<char>, p: Seq<char>)
    requires
        p.len() <= d.len(),
        p =~= d.subrange(0, p.len() as int),
        read_digits(p) is Err,
    ensures
        read_digits(d) == read_digits(p),
    decreases d.len() - p.len(),
{
    if d.len() > p.len() {
        let q = d.subrange(0, p.len() as int + 1);
        assert(q.drop_last() =~= p);
        lemma_prefix_error(d, q);
    } else {
        assert(d =~= p);
    }
}

/// The address to listen on, held as its numeric parts.
#[derive(Clone, Copy, Debug)]
pub enum Interface {
    V4([u8; 4]),
    V6([u16; 8]),
}

impl Interface {
    /// The wildcard address of either family: `0.0.0.0` or `::`.
    pub open spec fn is_unspecified(&self) -> bool {
        match *self {
            Interface::V4(o) => o@[0] == 0 && o@[1] == 0 && o@[2] == 0 && o@[3] == 0,
            Interface::V6(g) => g@[0] == 0 && g@[1] == 0 && g@[2] == 0 && g@[3] == 0
                && g@[4] == 0 && g@[5] == 0 && g@[6] == 0 && g@[7] == 0,
        }
    }

    /// Whether the startup banner names this address `localhost` instead of printing it.
    pub fn shows_as_localhost(&self) -> (r: bool)
        ensures
            r == self.is_unspecified(),
    {
        match *self {
            Interface::V4(o) => o[0] == 0 && o[1] == 0 && o[2] == 0 && o[3] == 0,
            Interface::V6(g) => g[0] == 0 && g[1] == 0 && g[2] == 0 && g[3] == 0 && g[4] == 0
                && g[5] == 0 && g[6] == 0 && g[7] == 0,
        }
    }
}

/// Everything the server is started with; it does not change afterwards.
#[derive(Clone, Debug)]
pub struct MiniserveConfig {
    pub verbose: bool,
    pub path: String,
    pub port: u16,
    pub interface: Interface,
}

/// Why a configuration could not be built.
#[derive(Clone, Copy, Debug, PartialEq, Eq, Structural)]
pub enum ConfigError {
    InvalidPath(InvalidRoot),
    InvalidPort(PortError),
}

impl MiniserveConfig {
    /// Builds the configuration from the argument values: the root must be a regular
    /// file or a directory, and the port must parse. The root is checked first.
    pub fn new(
        verbose: bool,
        path: String,
        root_is_file: bool,
        root_is_dir: bool,
        port: &str,
        interface: Interface,
    ) -> (r: Result<MiniserveConfig, ConfigError>)
        ensures
            !root_is_file && !root_is_dir ==> r == Err::<MiniserveConfig, ConfigError>(
                ConfigError::InvalidPath(InvalidRoot),
            ),
            (root_is_file || root_is_dir) ==> match port_of(port@) {
                Err(e) => r == Err::<MiniserveConfig, ConfigError>(ConfigError::InvalidPort(e)),
                Ok(v) => r is Ok && r->Ok_0.verbose == verbose && r->Ok_0.path == path
                    && r->Ok_0.port == v as u16 && r->Ok_0.interface == interface,
            },
    {
        if let Err(e) = classify(root_is_file, root_is_dir) {
            return Err(ConfigError::InvalidPath(e));
        }
        match parse_port(port) {
            Ok(p) => Ok(MiniserveConfig { verbose, path, port: p, interface }),
            Err(e) => Err(ConfigError::InvalidPort(e)),
        }
    }
}

} // verus!
