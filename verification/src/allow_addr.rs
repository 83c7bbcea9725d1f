//! Addresses and port patterns as the configuration names them.

use vstd::prelude::*;
use crate::text::{
    all_digits, dec_digits, dec_val, parse_u64_dec, split_seq, split_str, str_eq, str_starts_with,
    u64_to_dec, push_char,
};

verus! {

/// An IPv4 address held as its four octets.
#[derive(Debug, Clone, Copy, PartialEq, Eq, Structural)]
pub struct Ipv4Addr {
    pub a: u8,
    pub b: u8,
    pub c: u8,
    pub d: u8,
}

/// Dotted-decimal text of an address.
pub open spec fn ipv4_text(ip: Ipv4Addr) -> Seq<char> {
    dec_digits(ip.a as nat) + seq!['.'] + dec_digits(ip.b as nat) + seq!['.'] + dec_digits(
        ip.c as nat,
    ) + seq!['.'] + dec_digits(ip.d as nat)
}

/// A well-formed dotted-decimal octet: digits only, no leading zero, at
/// most 255.
pub open spec fn is_octet(s: Seq<char>) -> bool {
    &&& s.len() > 0
    &&& all_digits(s)
    &&& dec_val(s) <= 255
    &&& (s.len() == 1 || s[0] != '0')
}

/// What parsing dotted-decimal text yields.
pub open spec fn spec_parse_ipv4(s: Seq<char>) -> Option<Ipv4Addr> {
    let parts = split_seq(s, '.');
    if parts.len() == 4 && is_octet(parts[0]) && is_octet(parts[1]) && is_octet(parts[2])
        && is_octet(parts[3]) {
        Some(
            Ipv4Addr {
                a: dec_val(parts[0]) as u8,
                b: dec_val(parts[1]) as u8,
                c: dec_val(parts[2]) as u8,
                d: dec_val(parts[3]) as u8,
            },
        )
    } else {
        None
    }
}

impl Ipv4Addr {
    pub fn new(a: u8, b: u8, c: u8, d: u8) -> (r: Self)
        ensures
            r == (Ipv4Addr { a, b, c, d }),
    {
        Ipv4Addr { a, b, c, d }
    }

    /// Parse dotted-decimal text: four octets, each without a leading zero.
    pub fn parse(s: &str) -> (r: Option<Self>)
        ensures
            r == spec_parse_ipv4(s@),
    {
        let parts = split_str(s, '.');
        if parts.len() != 4 {
            return None;
        }
        let mut octets: [u8; 4] = [0, 0, 0, 0];
        let mut i: usize = 0;
        while i < 4
            invariant
                0 <= i <= 4,
                parts.deep_view() == split_seq(s@, '.'),
                parts@.len() == 4,
                forall|k: int|
                    0 <= k < i ==> is_octet(#[trigger] parts.deep_view()[k]) && octets[k]
                        == dec_val(parts.deep_view()[k]),
            decreases 4 - i,
        {
            proof {
                assert(parts.deep_view()[i as int] == parts@[i as int]@);
            }
            let part = &parts[i];
            let v = match parse_u64_dec(part.as_str()) {
                Some(v) => v,
                None => {
                    return None;
                },
            };
            if v > 255 {
                return None;
            }
            if part.as_str().unicode_len() > 1 && part.as_str().get_char(0) == '0' {
                return None;
            }
            octets[i] = v as u8;
            i = i + 1;
        }
        Some(Ipv4Addr { a: octets[0], b: octets[1], c: octets[2], d: octets[3] })
    }

    /// Dotted-decimal text of the address.
    pub fn to_text(&self) -> (r: String)
        ensures
            r@ == ipv4_text(*self),
    {
        let mut s = u64_to_dec(self.a as u64);
        push_char(&mut s, '.');
        s.append(u64_to_dec(self.b as u64).as_str());
        push_char(&mut s, '.');
        s.append(u64_to_dec(self.c as u64).as_str());
        push_char(&mut s, '.');
        s.append(u64_to_dec(self.d as u64).as_str());
        proof {
            assert(s@ =~= ipv4_text(*self));
        }
        s
    }
}

/// Which ports an allowance covers.
#[derive(Debug, Clone, PartialEq, Eq, Structural)]
pub enum AllowAddrPort {
    Port(usize),
    Range(usize, usize),
    AnyPort,
}

/// Why an address or port pattern fails to parse.
#[derive(Debug, Clone, Copy, PartialEq, Eq, Structural)]
pub enum AllowAddrError {
    InvalidPort,
    InvalidRange,
    InvalidAddr,
}

/// A digit string whose value fits a `usize`.
pub open spec fn is_dec_usize(s: Seq<char>) -> bool {
    s.len() > 0 && all_digits(s) && dec_val(s) <= usize::MAX
}

/// What parsing a port pattern yields: `*`, one port, or `lo-hi`.
pub open spec fn spec_parse_port(s: Seq<char>) -> Result<AllowAddrPort, AllowAddrError> {
    if s == seq!['*'] {
        Ok(AllowAddrPort::AnyPort)
    } else if is_dec_usize(s) {
        Ok(AllowAddrPort::Port(dec_val(s) as usize))
    } else {
        let parts = split_seq(s, '-');
        if parts.len() != 2 {
            Err(AllowAddrError::InvalidPort)
        } else if !is_dec_usize(parts[0]) || !is_dec_usize(parts[1]) {
            Err(AllowAddrError::InvalidPort)
        } else if dec_val(parts[0]) > dec_val(parts[1]) {
            Err(AllowAddrError::InvalidRange)
        } else {
            Ok(AllowAddrPort::Range(dec_val(parts[0]) as usize, dec_val(parts[1]) as usize))
        }
    }
}

impl AllowAddrPort {
    /// Parse a port pattern.
    pub fn new_from_str(s: &str) -> (r: Result<Self, AllowAddrError>)
        ensures
            r == spec_parse_port(s@),
    {
        proof {
            reveal_strlit("*");
            assert("*"@ =~= seq!['*']);
        }
        if str_eq(s, "*") {
            return Ok(AllowAddrPort::AnyPort);
        }
        match parse_u64_dec(s) {
            Some(v) => {
                if v <= usize::MAX as u64 {
                    return Ok(AllowAddrPort::Port(v as usize));
                }
            },
            None => {},
        }
        let parts = split_str(s, '-');
        if parts.len() != 2 {
            return Err(AllowAddrError::InvalidPort);
        }
        proof {
            assert(parts.deep_view()[0] == parts@[0]@);
            assert(parts.deep_view()[1] == parts@[1]@);
        }
        let min = match parse_u64_dec(parts[0].as_str()) {
            Some(v) if v <= usize::MAX as u64 => v,
            _ => {
                return Err(AllowAddrError::InvalidPort);
            },
        };
        let max = match parse_u64_dec(parts[1].as_str()) {
            Some(v) if v <= usize::MAX as u64 => v,
            _ => {
                return Err(AllowAddrError::InvalidPort);
            },
        };
        if min > max {
            return Err(AllowAddrError::InvalidRange);
        }
        Ok(AllowAddrPort::Range(min as usize, max as usize))
    }
}

/// A plain address, IPv4 or IPv6.
#[derive(Debug, PartialEq, Eq)]
pub enum AllowIp {
    V4(Ipv4Addr),
    V6(String),
}

impl AllowIp {
    /// Text of the address.
    pub fn to_string(&self) -> (r: String)
        ensures
            (match self {
                AllowIp::V4(ip) => r@ == ipv4_text(*ip),
                AllowIp::V6(v) => r@ == v@,
            }),
    {
        match self {
            AllowIp::V4(ip) => ip.to_text(),
            AllowIp::V6(v) => v.clone(),
        }
    }
}

/// An allowance: an address pattern together with a port pattern.
#[derive(Debug, Clone, PartialEq, Eq)]
pub enum AllowAddr {
    V4(Ipv4Addr, AllowAddrPort),
    V6(String, AllowAddrPort),
    Server(String, AllowAddrPort),
    Group(String, AllowAddrPort),
}

/// `s` with every leading `v4:` marker removed.
pub open spec fn spec_trim_v4(s: Seq<char>) -> Seq<char>
    decreases s.len(),
{
    if s.len() >= 3 && s.take(3) == seq!['v', '4', ':'] {
        spec_trim_v4(s.skip(3))
    } else {
        s
    }
}

/// What parsing the body of a `v4:` allowance yields.
pub open spec fn spec_parse_v4_body(s: Seq<char>) -> Result<AllowAddr, AllowAddrError> {
    let parts = split_seq(s, ':');
    if parts.len() == 1 {
        match spec_parse_ipv4(parts[0]) {
            Some(ip) => Ok(AllowAddr::V4(ip, AllowAddrPort::AnyPort)),
            None => Err(AllowAddrError::InvalidAddr),
        }
    } else if parts.len() == 2 {
        match spec_parse_ipv4(parts[0]) {
            Some(ip) => match spec_parse_port(parts[1]) {
                Ok(port) => Ok(AllowAddr::V4(ip, port)),
                Err(e) => Err(e),
            },
            None => Err(AllowAddrError::InvalidAddr),
        }
    } else {
        Err(AllowAddrError::InvalidAddr)
    }
}

impl AllowAddr {
    fn parse_v4(data: &str) -> (r: Result<Self, AllowAddrError>)
        ensures
            r == spec_parse_v4_body(spec_trim_v4(data@)),
    {
        proof {
            reveal_strlit("v4:");
            assert("v4:"@ =~= seq!['v', '4', ':']);
        }
        let mut rest: String = String::from_str(data);
        loop
            invariant
                spec_trim_v4(data@) == spec_trim_v4(rest@),
            ensures
                spec_trim_v4(data@) == rest@,
            decreases rest@.len(),
        {
            proof {
                reveal_strlit("v4:");
                assert("v4:"@ =~= seq!['v', '4', ':']);
            }
            if !str_starts_with(rest.as_str(), "v4:") {
                proof {
                    assert(spec_trim_v4(rest@) == rest@);
                }
                break ;
            }
            let n = rest.as_str().unicode_len();
            let trimmed = rest.as_str().substring_char(3, n);
            proof {
                assert(trimmed@ =~= rest@.skip(3));
            }
            rest = String::from_str(trimmed);
        }
        let parts = split_str(rest.as_str(), ':');
        proof {
            assert(forall|k: int|
                0 <= k < parts@.len() ==> #[trigger] parts.deep_view()[k] == parts@[k]@);
        }
        if parts.len() == 1 {
            match Ipv4Addr::parse(parts[0].as_str()) {
                Some(ip) => Ok(AllowAddr::V4(ip, AllowAddrPort::AnyPort)),
                None => Err(AllowAddrError::InvalidAddr),
            }
        } else if parts.len() == 2 {
            match Ipv4Addr::parse(parts[0].as_str()) {
                Some(ip) => match AllowAddrPort::new_from_str(parts[1].as_str()) {
                    Ok(port) => Ok(AllowAddr::V4(ip, port)),
                    Err(e) => Err(e),
                },
                None => Err(AllowAddrError::InvalidAddr),
            }
        } else {
            Err(AllowAddrError::InvalidAddr)
        }
    }

    /// Parse an allowance; only the `v4:` form is understood.
    pub fn new_from_str(data: &str) -> (r: Result<Self, AllowAddrError>)
        ensures
            r == (if data@.len() >= 3 && data@.take(3) == seq!['v', '4', ':'] {
                spec_parse_v4_body(spec_trim_v4(data@))
            } else {
                Err::<AllowAddr, AllowAddrError>(AllowAddrError::InvalidAddr)
            }),
    {
        proof {
            reveal_strlit("v4:");
            assert("v4:"@ =~= seq!['v', '4', ':']);
        }
        if str_starts_with(data, "v4:") {
            return Self::parse_v4(data);
        }
        Err(AllowAddrError::InvalidAddr)
    }
}

} // verus!
