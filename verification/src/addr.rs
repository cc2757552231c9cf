//! Resolution of the socket address the service binds to: a port from an
//! override string or a fixed default, and an IP from an override string or
//! a discovered local address.

use vstd::prelude::*;
use crate::ip::{IpAddr, Ipv4, is_valid_ipv4, is_valid_ipv6, ipv4_octet, ipv6_groups, parse_ip};
use crate::text::{all_dec_digits, dec_val, is_dec_digit, lemma_dec_val_prefix_le, lemma_dec_val_step};

verus! {

/// Port used when no override is given.
pub const DEFAULT_PORT: u16 = 42271;

/// The digits of a port override: one optional leading `+` sign is skipped.
pub open spec fn port_digits(s: Seq<char>) -> Seq<char> {
    if s.len() > 0 && s[0] == '+' {
        s.drop_first()
    } else {
        s
    }
}

/// A decimal string, with an optional leading `+`, that denotes a 16-bit
/// port number.
pub open spec fn is_valid_port(s: Seq<char>) -> bool {
    port_digits(s).len() > 0 && all_dec_digits(port_digits(s)) && dec_val(port_digits(s)) <= 65535
}

/// Parses a decimal port number; `None` exactly on strings that do not
/// denote a 16-bit value.
pub fn parse_port(s: &str) -> (r: Option<u16>)
    ensures
        r is Some <==> is_valid_port(s@),
        r is Some ==> r->0 as int == dec_val(port_digits(s@)),
{
    let n = s.unicode_len();
    let start: usize = if n > 0 && s.get_char(0) == '+' {
        1
    } else {
        0
    };
    let ghost d = port_digits(s@);
    proof {
        assert(d =~= s@.skip(start as int));
    }
    if n == start {
        return None;
    }
    let mut i: usize = start;
    let mut acc: u32 = 0;
    while i < n
        invariant
            start <= i <= n,
            start < n == s@.len(),
            d == port_digits(s@),
            d =~= s@.skip(start as int),
            forall|j: int| 0 <= j < i - start ==> is_dec_digit(#[trigger] d[j]),
            acc as int == dec_val(d.take(i - start)),
            acc <= 65535,
        decreases n - i,
    {
        let c = s.get_char(i);
        proof {
            assert(d[i - start] == c);
        }
        if c < '0' || c > '9' {
            assert(!all_dec_digits(d));
            return None;
        }
        let g: u32 = c as u32 - '0' as u32;
        let next: u32 = acc * 10 + g;
        proof {
            lemma_dec_val_step(d, i - start);
        }
        if next > 65535 {
            proof {
                if all_dec_digits(d) {
                    lemma_dec_val_prefix_le(d, i - start + 1, d.len() as int);
                    assert(d.take(d.len() as int) =~= d);
                }
            }
            return None;
        }
        acc = next;
        i = i + 1;
    }
    proof {
        assert(d.take(n - start) =~= d);
    }
    Some(acc as u16)
}

/// Why startup address resolution fails; each failure is fatal to startup.
#[derive(Clone, Copy, PartialEq, Eq, Debug)]
pub enum AddrError {
    /// The IP override does not denote an IP address.
    BadIpOverride,
    /// No IP override was given and no local address was discovered.
    NoLocalIp,
    /// The port override does not denote a 16-bit port number.
    BadPortOverride,
}

/// The IP source resolves: a valid override, or a discovered address.
pub open spec fn ip_source_ok(override_s: Option<&str>, discovered: Option<IpAddr>) -> bool {
    match override_s {
        Some(s) => is_valid_ipv4(s@) || is_valid_ipv6(s@),
        None => discovered is Some,
    }
}

/// `ip` is the address the sources denote: the parsed override when one is
/// given, otherwise the discovered address.
pub open spec fn ip_matches(ip: IpAddr, override_s: Option<&str>, discovered: Option<IpAddr>) -> bool {
    match override_s {
        Some(s) => if is_valid_ipv4(s@) {
            ip matches IpAddr::V4(v) && v.a as int == ipv4_octet(s@, 0) && v.b as int
                == ipv4_octet(s@, 1) && v.c as int == ipv4_octet(s@, 2) && v.d as int
                == ipv4_octet(s@, 3)
        } else {
            ip matches IpAddr::V6(v) && v.groups@.map_values(|g: u16| g as int) == ipv6_groups(s@)
        },
        None => discovered == Some(ip),
    }
}

/// The port source resolves: a valid override, or none (the default applies).
pub open spec fn port_source_ok(override_s: Option<&str>) -> bool {
    match override_s {
        Some(s) => is_valid_port(s@),
        None => true,
    }
}

/// `p` is the port the source denotes: the parsed override when one is
/// given, otherwise the default.
pub open spec fn port_matches(p: u16, override_s: Option<&str>) -> bool {
    match override_s {
        Some(s) => p as int == dec_val(port_digits(s@)),
        None => p == DEFAULT_PORT,
    }
}

/// Resolves the bind IP: an override wins and must be a valid IP address;
/// otherwise the discovered local address is taken; otherwise resolution
/// fails.
pub fn resolve_ip(override_s: Option<&str>, discovered: Option<IpAddr>) -> (r: Result<
    IpAddr,
    AddrError,
>)
    requires
        discovered matches Some(ip) ==> ip.wf(),
    ensures
        r is Ok <==> ip_source_ok(override_s, discovered),
        r matches Ok(ip) ==> ip.wf() && ip_matches(ip, override_s, discovered),
        r matches Err(e) ==> e == (match override_s {
            Some(_) => AddrError::BadIpOverride,
            None => AddrError::NoLocalIp,
        }),
{
    match override_s {
        Some(s) => match parse_ip(s) {
            Some(ip) => Ok(ip),
            None => Err(AddrError::BadIpOverride),
        },
        None => match discovered {
            Some(ip) => Ok(ip),
            None => Err(AddrError::NoLocalIp),
        },
    }
}

/// Resolves the bind port: an override wins and must be a valid port
/// number; otherwise the default port is taken.
pub fn resolve_port(override_s: Option<&str>) -> (r: Result<u16, AddrError>)
    ensures
        r is Ok <==> port_source_ok(override_s),
        r matches Ok(p) ==> port_matches(p, override_s),
        r is Err ==> r == Err::<u16, AddrError>(AddrError::BadPortOverride),
{
    match override_s {
        Some(s) => match parse_port(s) {
            Some(p) => Ok(p),
            None => Err(AddrError::BadPortOverride),
        },
        None => Ok(DEFAULT_PORT),
    }
}

/// The socket address the service binds to.
#[derive(Clone, PartialEq, Eq, Debug)]
pub struct SocketSpec {
    pub ip: IpAddr,
    pub port: u16,
}

impl SocketSpec {
    pub open spec fn wf(self) -> bool {
        self.ip.wf()
    }
}

/// Resolves the full bind address, the IP first: an IP failure wins over a
/// port failure, and any failure is fatal to startup.
pub fn resolve_addr(
    ip_override: Option<&str>,
    discovered: Option<IpAddr>,
    port_override: Option<&str>,
) -> (r: Result<SocketSpec, AddrError>)
    requires
        discovered matches Some(ip) ==> ip.wf(),
    ensures
        r is Ok <==> (ip_source_ok(ip_override, discovered) && port_source_ok(port_override)),
        r matches Ok(a) ==> a.wf() && ip_matches(a.ip, ip_override, discovered) && port_matches(
            a.port,
            port_override,
        ),
        r matches Err(e) ==> e == (if !ip_source_ok(ip_override, discovered) {
            match ip_override {
                Some(_) => AddrError::BadIpOverride,
                None => AddrError::NoLocalIp,
            }
        } else {
            AddrError::BadPortOverride
        }),
{
    let ip = match resolve_ip(ip_override, discovered) {
        Ok(ip) => ip,
        Err(e) => {
            return Err(e);
        },
    };
    let port = match resolve_port(port_override) {
        Ok(p) => p,
        Err(e) => {
            return Err(e);
        },
    };
    Ok(SocketSpec { ip, port })
}

} // verus!
