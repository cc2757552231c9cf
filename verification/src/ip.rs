//! IP addresses as plain values: four octets for the v4 family, eight
//! 16-bit groups for the v6 family, with verified parsers for the textual
//! forms (dotted decimal, and colon-separated hexadecimal with an optional
//! `::` abbreviation).

use vstd::prelude::*;
use crate::text::{all_dec_digits, all_hex_digits, dec_val, hex_val, is_dec_digit, is_hex_digit, lemma_dec_val_step, lemma_hex_val_step, lemma_split_on_no_sep, lemma_split_on_nonempty, split_on, split_str};

verus! {

/// An IPv4 address as four octets.
#[derive(Clone, Copy, PartialEq, Eq, Debug)]
pub struct Ipv4 {
    pub a: u8,
    pub b: u8,
    pub c: u8,
    pub d: u8,
}

/// An IPv6 address as eight 16-bit groups.
#[derive(Clone, PartialEq, Eq, Debug)]
pub struct Ipv6 {
    pub groups: Vec<u16>,
}

impl Ipv6 {
    /// Exactly eight groups.
    pub open spec fn wf(self) -> bool {
        self.groups@.len() == 8
    }
}

/// An IP address of either family.
#[derive(Clone, PartialEq, Eq, Debug)]
pub enum IpAddr {
    V4(Ipv4),
    V6(Ipv6),
}

impl IpAddr {
    pub open spec fn wf(self) -> bool {
        match self {
            IpAddr::V4(_) => true,
            IpAddr::V6(v) => v.wf(),
        }
    }
}

/// A dotted-decimal octet: one to three digits, value at most 255, and no
/// leading zero except for `0` itself.
pub open spec fn is_valid_octet(s: Seq<char>) -> bool {
    1 <= s.len() <= 3 && all_dec_digits(s) && dec_val(s) <= 255 && (s.len() > 1 ==> s[0] != '0')
}

/// Four valid octets separated by dots.
pub open spec fn is_valid_ipv4(s: Seq<char>) -> bool {
    let ps = split_on(s, '.');
    ps.len() == 4 && (forall|k: int| 0 <= k < 4 ==> is_valid_octet(#[trigger] ps[k]))
}

/// Value of the `k`-th dotted-decimal octet.
pub open spec fn ipv4_octet(s: Seq<char>, k: int) -> int {
    dec_val(split_on(s, '.')[k])
}

/// Parses one dotted-decimal octet; `None` exactly on invalid ones.
fn parse_octet(s: &str) -> (r: Option<u8>)
    ensures
        r is Some <==> is_valid_octet(s@),
        r is Some ==> r->0 as int == dec_val(s@),
{
    let n = s.unicode_len();
    if n == 0 || n > 3 {
        return None;
    }
    if n > 1 && s.get_char(0) == '0' {
        return None;
    }
    let mut i: usize = 0;
    let mut acc: u32 = 0;
    while i < n
        invariant
            0 < n == s@.len() <= 3,
            i <= n,
            forall|j: int| 0 <= j < i ==> is_dec_digit(#[trigger] s@[j]),
            acc as int == dec_val(s@.take(i as int)),
            i == 0 ==> acc == 0,
            i == 1 ==> acc <= 9,
            i == 2 ==> acc <= 99,
            i == 3 ==> acc <= 999,
        decreases n - i,
    {
        let c = s.get_char(i);
        if c < '0' || c > '9' {
            assert(!all_dec_digits(s@));
            return None;
        }
        let d: u32 = c as u32 - '0' as u32;
        proof {
            lemma_dec_val_step(s@, i as int);
        }
        acc = acc * 10 + d;
        i = i + 1;
    }
    proof {
        assert(s@.take(n as int) =~= s@);
    }
    if acc > 255 {
        return None;
    }
    Some(acc as u8)
}

/// Parses a dotted-decimal IPv4 address; `None` exactly on invalid ones.
pub fn parse_ipv4(s: &str) -> (r: Option<Ipv4>)
    ensures
        r is Some <==> is_valid_ipv4(s@),
        r matches Some(v) ==> v.a as int == ipv4_octet(s@, 0) && v.b as int == ipv4_octet(s@, 1)
            && v.c as int == ipv4_octet(s@, 2) && v.d as int == ipv4_octet(s@, 3),
{
    let parts = split_str(s, '.');
    let ghost ps = split_on(s@, '.');
    proof {
        assert(parts@.map_values(|p: String| p@) =~= ps);
        assert(parts@.len() == ps.len());
    }
    if parts.len() != 4 {
        return None;
    }
    proof {
        assert(forall|k: int| 0 <= k < 4 ==> (#[trigger] ps[k]) == parts@[k]@);
    }
    let a = match parse_octet(parts[0].as_str()) {
        Some(v) => v,
        None => {
            assert(!is_valid_octet(ps[0]));
            return None;
        },
    };
    let b = match parse_octet(parts[1].as_str()) {
        Some(v) => v,
        None => {
            assert(!is_valid_octet(ps[1]));
            return None;
        },
    };
    let c = match parse_octet(parts[2].as_str()) {
        Some(v) => v,
        None => {
            assert(!is_valid_octet(ps[2]));
            return None;
        },
    };
    let d = match parse_octet(parts[3].as_str()) {
        Some(v) => v,
        None => {
            assert(!is_valid_octet(ps[3]));
            return None;
        },
    };
    assert(forall|k: int| 0 <= k < 4 ==> is_valid_octet(#[trigger] split_on(s@, '.')[k]));
    Some(Ipv4 { a, b, c, d })
}

/// A hexadecimal group: one to four hex digits.
pub open spec fn is_valid_group(s: Seq<char>) -> bool {
    1 <= s.len() <= 4 && all_hex_digits(s)
}

/// One side of a `::` abbreviation (or a whole address without one):
/// colon-separated groups, no groups at all for the empty side.
pub open spec fn side_groups(s: Seq<char>) -> Seq<Seq<char>> {
    if s.len() == 0 {
        Seq::empty()
    } else {
        split_on(s, ':')
    }
}

/// Every group of the side is a valid hexadecimal group.
pub open spec fn side_ok(s: Seq<char>) -> bool {
    forall|k: int| 0 <= k < side_groups(s).len() ==> is_valid_group(#[trigger] side_groups(s)[k])
}

/// Values of a sequence of hexadecimal groups.
pub open spec fn group_vals(gs: Seq<Seq<char>>) -> Seq<int> {
    gs.map_values(|g: Seq<char>| hex_val(g))
}

/// `n` zero groups.
pub open spec fn zero_groups(n: nat) -> Seq<int> {
    Seq::new(n, |t: int| 0)
}

/// Position of the first `::` in `s`, if any.
pub open spec fn first_dcolon(s: Seq<char>) -> Option<int>
    decreases s.len(),
{
    if s.len() < 2 {
        None
    } else if s[0] == ':' && s[1] == ':' {
        Some(0)
    } else {
        match first_dcolon(s.drop_first()) {
            Some(i) => Some(i + 1),
            None => None,
        }
    }
}

/// `first_dcolon` names the least position of two adjacent colons.
pub proof fn lemma_first_dcolon_char(s: Seq<char>)
    ensures
        match first_dcolon(s) {
            Some(i) => 0 <= i && i + 1 < s.len() && s[i] == ':' && s[i + 1] == ':'
                && (forall|j: int| 0 <= j < i ==> !((#[trigger] s[j]) == ':' && s[j + 1] == ':')),
            None => forall|j: int| 0 <= j && j + 1 < s.len() ==> !((#[trigger] s[j]) == ':' && s[j + 1] == ':'),
        },
    decreases s.len(),
{
    if s.len() < 2 {
    } else if s[0] == ':' && s[1] == ':' {
    } else {
        lemma_first_dcolon_char(s.drop_first());
        let t = s.drop_first();
        match first_dcolon(t) {
            Some(i) => {
                assert forall|j: int| 1 <= j < i + 1 implies !((#[trigger] s[j]) == ':' && s[j + 1]
                    == ':') by {
                    assert(t[j - 1] == s[j]);
                    assert(t[j] == s[j + 1]);
                }
            },
            None => {
                assert forall|j: int| 1 <= j && j + 1 < s.len() implies !((#[trigger] s[j]) == ':'
                    && s[j + 1] == ':') by {
                    assert(t[j - 1] == s[j]);
                    assert(t[j] == s[j + 1]);
                }
            },
        }
    }
}

/// The two group values of an embedded dotted-decimal tail.
pub open spec fn v4_tail_groups(p: Seq<char>) -> Seq<int> {
    seq![
        ipv4_octet(p, 0) * 256 + ipv4_octet(p, 1),
        ipv4_octet(p, 2) * 256 + ipv4_octet(p, 3),
    ]
}

/// The trailing group list of an address: hexadecimal groups, the last of
/// which may instead be an embedded dotted-decimal IPv4 address.
pub open spec fn tail_ok(s: Seq<char>) -> bool {
    let gs = side_groups(s);
    s.len() == 0 || ((forall|k: int| 0 <= k < gs.len() - 1 ==> is_valid_group(#[trigger] gs[k]))
        && (is_valid_group(gs[gs.len() - 1]) || is_valid_ipv4(gs[gs.len() - 1])))
}

/// How many of the eight groups the trailing list supplies: an embedded
/// IPv4 address counts for two.
pub open spec fn tail_group_count(s: Seq<char>) -> int {
    let gs = side_groups(s);
    if s.len() == 0 {
        0
    } else if is_valid_ipv4(gs[gs.len() - 1]) {
        gs.len() as int + 1
    } else {
        gs.len() as int
    }
}

/// The group values the trailing list supplies.
pub open spec fn tail_vals(s: Seq<char>) -> Seq<int> {
    let gs = side_groups(s);
    if s.len() == 0 {
        Seq::empty()
    } else if is_valid_ipv4(gs[gs.len() - 1]) {
        group_vals(gs.drop_last()) + v4_tail_groups(gs[gs.len() - 1])
    } else {
        group_vals(gs)
    }
}

/// The eight group values denoted by `s`, if `s` is a valid IPv6 address:
/// eight colon-separated groups, or one `::` standing for the missing zero
/// groups between at most seven explicit ones; the last group may be an
/// embedded dotted-decimal IPv4 address standing for two groups.
pub open spec fn ipv6_groups_opt(s: Seq<char>) -> Option<Seq<int>> {
    match first_dcolon(s) {
        None => {
            if s.len() > 0 && tail_ok(s) && tail_group_count(s) == 8 {
                Some(tail_vals(s))
            } else {
                None
            }
        },
        Some(i) => {
            let left = s.take(i);
            let right = s.skip(i + 2);
            let l = side_groups(left);
            if side_ok(left) && tail_ok(right) && l.len() + tail_group_count(right) <= 7 {
                Some(
                    group_vals(l) + zero_groups((8 - l.len() - tail_group_count(right)) as nat)
                        + tail_vals(right),
                )
            } else {
                None
            }
        },
    }
}

pub open spec fn is_valid_ipv6(s: Seq<char>) -> bool {
    ipv6_groups_opt(s) is Some
}

pub open spec fn ipv6_groups(s: Seq<char>) -> Seq<int> {
    ipv6_groups_opt(s)->0
}

/// Parses one hexadecimal group; `None` exactly on invalid ones.
fn parse_group(s: &str) -> (r: Option<u16>)
    ensures
        r is Some <==> is_valid_group(s@),
        r is Some ==> r->0 as int == hex_val(s@),
{
    let n = s.unicode_len();
    if n == 0 || n > 4 {
        return None;
    }
    let mut i: usize = 0;
    let mut acc: u32 = 0;
    while i < n
        invariant
            0 < n == s@.len() <= 4,
            i <= n,
            forall|j: int| 0 <= j < i ==> is_hex_digit(#[trigger] s@[j]),
            acc as int == hex_val(s@.take(i as int)),
            i == 0 ==> acc == 0,
            i == 1 ==> acc < 16,
            i == 2 ==> acc < 256,
            i == 3 ==> acc < 4096,
            i == 4 ==> acc < 65536,
        decreases n - i,
    {
        let c = s.get_char(i);
        let digit = ('0' <= c && c <= '9') || ('a' <= c && c <= 'f') || ('A' <= c && c <= 'F');
        if !digit {
            assert(!all_hex_digits(s@));
            return None;
        }
        let d: u32 = if c <= '9' {
            c as u32 - '0' as u32
        } else if c >= 'a' {
            (c as u32 - 'a' as u32) + 10
        } else {
            (c as u32 - 'A' as u32) + 10
        };
        proof {
            lemma_hex_val_step(s@, i as int);
        }
        acc = acc * 16 + d;
        i = i + 1;
    }
    proof {
        assert(s@.take(n as int) =~= s@);
    }
    Some(acc as u16)
}

/// Parses one side of a `::` abbreviation (or a whole address without one).
fn parse_side(t: &str) -> (r: Option<Vec<u16>>)
    ensures
        r is Some <==> side_ok(t@),
        r matches Some(v) ==> v@.len() == side_groups(t@).len() && v@.map_values(|g: u16| g as int)
            == group_vals(side_groups(t@)),
{
    let n = t.unicode_len();
    if n == 0 {
        let out: Vec<u16> = Vec::new();
        proof {
            assert(out@.map_values(|g: u16| g as int) =~= group_vals(side_groups(t@)));
        }
        return Some(out);
    }
    let parts = split_str(t, ':');
    let ghost gs = side_groups(t@);
    proof {
        assert(parts@.map_values(|p: String| p@) =~= gs);
        assert(forall|j: int| 0 <= j < parts@.len() ==> gs[j] == (#[trigger] parts@[j])@);
    }
    let mut out: Vec<u16> = Vec::new();
    let mut k: usize = 0;
    while k < parts.len()
        invariant
            gs == side_groups(t@),
            parts@.len() == gs.len(),
            forall|j: int| 0 <= j < parts@.len() ==> gs[j] == (#[trigger] parts@[j])@,
            k <= parts@.len(),
            out@.len() == k,
            forall|j: int| 0 <= j < k ==> is_valid_group(#[trigger] gs[j]),
            forall|j: int| 0 <= j < k ==> (#[trigger] out@[j]) as int == hex_val(gs[j]),
        decreases parts@.len() - k,
    {
        match parse_group(parts[k].as_str()) {
            Some(g) => {
                out.push(g);
            },
            None => {
                assert(!is_valid_group(gs[k as int]));
                return None;
            },
        }
        k = k + 1;
    }
    proof {
        assert(out@.map_values(|g: u16| g as int) =~= group_vals(gs));
    }
    Some(out)
}

/// A valid hexadecimal group is never a dotted-decimal address.
proof fn lemma_group_not_ipv4(p: Seq<char>)
    requires
        is_valid_group(p),
    ensures
        !is_valid_ipv4(p),
{
    assert forall|j: int| 0 <= j < p.len() implies p[j] != '.' by {
        assert(is_hex_digit(p[j]));
    }
    lemma_split_on_no_sep(p, '.');
}

/// Parses the trailing group list: hexadecimal groups, the last of which
/// may be an embedded dotted-decimal IPv4 address standing for two groups.
fn parse_tail(t: &str) -> (r: Option<Vec<u16>>)
    ensures
        r is Some <==> tail_ok(t@),
        r matches Some(v) ==> v@.len() == tail_group_count(t@) && v@.map_values(|g: u16| g as int)
            == tail_vals(t@),
{
    let n = t.unicode_len();
    if n == 0 {
        let out: Vec<u16> = Vec::new();
        proof {
            assert(out@.map_values(|g: u16| g as int) =~= tail_vals(t@));
        }
        return Some(out);
    }
    let parts = split_str(t, ':');
    let ghost gs = side_groups(t@);
    proof {
        lemma_split_on_nonempty(t@, ':');
        assert(parts@.map_values(|p: String| p@) =~= gs);
        assert(forall|j: int| 0 <= j < parts@.len() ==> gs[j] == (#[trigger] parts@[j])@);
    }
    let m = parts.len();
    let mut out: Vec<u16> = Vec::new();
    let mut k: usize = 0;
    while k < m - 1
        invariant
            gs == side_groups(t@),
            parts@.len() == gs.len(),
            forall|j: int| 0 <= j < parts@.len() ==> gs[j] == (#[trigger] parts@[j])@,
            1 <= m == parts@.len(),
            k <= m - 1,
            out@.len() == k,
            forall|j: int| 0 <= j < k ==> is_valid_group(#[trigger] gs[j]),
            forall|j: int| 0 <= j < k ==> (#[trigger] out@[j]) as int == hex_val(gs[j]),
        decreases m - k,
    {
        match parse_group(parts[k].as_str()) {
            Some(g) => {
                out.push(g);
            },
            None => {
                assert(!is_valid_group(gs[k as int]));
                assert(!tail_ok(t@));
                return None;
            },
        }
        k = k + 1;
    }
    match parse_group(parts[m - 1].as_str()) {
        Some(g) => {
            out.push(g);
            proof {
                lemma_group_not_ipv4(gs[m - 1]);
                assert(out@.map_values(|g2: u16| g2 as int) =~= group_vals(gs));
            }
            Some(out)
        },
        None => match parse_ipv4(parts[m - 1].as_str()) {
            Some(q) => {
                let hi: u16 = (q.a as u16) * 256 + (q.b as u16);
                let lo: u16 = (q.c as u16) * 256 + (q.d as u16);
                out.push(hi);
                out.push(lo);
                proof {
                    assert(out@.map_values(|g2: u16| g2 as int) =~= group_vals(gs.drop_last())
                        + v4_tail_groups(gs[m - 1]));
                }
                Some(out)
            },
            None => {
                assert(!is_valid_group(gs[m - 1]));
                assert(!is_valid_ipv4(gs[m - 1]));
                assert(!tail_ok(t@));
                None
            },
        },
    }
}

/// Finds the first `::`, reporting the least such position.
fn find_dcolon(s: &str) -> (r: Option<usize>)
    ensures
        match r {
            Some(p) => p + 1 < s@.len() && s@[p as int] == ':' && s@[p as int + 1] == ':'
                && (forall|j: int| 0 <= j < p ==> !((#[trigger] s@[j]) == ':' && s@[j + 1] == ':')),
            None => forall|j: int| 0 <= j && j + 1 < s@.len() ==> !((#[trigger] s@[j]) == ':' && s@[j + 1] == ':'),
        },
{
    let n = s.unicode_len();
    if n < 2 {
        return None;
    }
    let mut i: usize = 0;
    while i < n - 1
        invariant
            2 <= n == s@.len(),
            i <= n,
            forall|j: int| 0 <= j < i ==> !((#[trigger] s@[j]) == ':' && s@[j + 1] == ':'),
        decreases n - i,
    {
        if s.get_char(i) == ':' && s.get_char(i + 1) == ':' {
            return Some(i);
        }
        i = i + 1;
    }
    None
}

/// Parses a colon-separated hexadecimal IPv6 address, with an optional `::`
/// abbreviation; `None` exactly on invalid ones.
pub fn parse_ipv6(s: &str) -> (r: Option<Ipv6>)
    ensures
        r is Some <==> is_valid_ipv6(s@),
        r matches Some(v) ==> v.wf() && v.groups@.map_values(|g: u16| g as int) == ipv6_groups(s@),
{
    let n = s.unicode_len();
    let dc = find_dcolon(s);
    proof {
        lemma_first_dcolon_char(s@);
    }
    match dc {
        None => {
            proof {
                if first_dcolon(s@) is Some {
                    let i0 = first_dcolon(s@)->0;
                    assert(s@[i0] == ':' && s@[i0 + 1] == ':');
                    assert(false);
                }
            }
            let gv = match parse_tail(s) {
                Some(v) => v,
                None => {
                    return None;
                },
            };
            if gv.len() != 8 {
                return None;
            }
            Some(Ipv6 { groups: gv })
        },
        Some(p) => {
            proof {
                let fd = first_dcolon(s@);
                if fd is None {
                    assert(!(s@[p as int] == ':' && s@[p as int + 1] == ':'));
                    assert(false);
                } else {
                    let i0 = fd->0;
                    if i0 < p as int {
                        assert(!(s@[i0] == ':' && s@[i0 + 1] == ':'));
                        assert(false);
                    }
                    if (p as int) < i0 {
                        assert(!(s@[p as int] == ':' && s@[p as int + 1] == ':'));
                        assert(false);
                    }
                    assert(i0 == p as int);
                }
            }
            let left = s.substring_char(0, p);
            let right = s.substring_char(p + 2, n);
            proof {
                assert(left@ =~= s@.take(p as int));
                assert(right@ =~= s@.skip(p as int + 2));
            }
            let lv = match parse_side(left) {
                Some(v) => v,
                None => {
                    return None;
                },
            };
            let rv = match parse_tail(right) {
                Some(v) => v,
                None => {
                    return None;
                },
            };
            if lv.len() > 7 || rv.len() > 7 - lv.len() {
                return None;
            }
            let ln = lv.len();
            let rn = rv.len();
            let ghost lvals = lv@.map_values(|g: u16| g as int);
            let ghost rvals = rv@.map_values(|g: u16| g as int);
            let mut groups = lv;
            let mut z: usize = 0;
            while z < 8 - ln - rn
                invariant
                    ln + rn <= 7,
                    z <= 8 - ln - rn,
                    lvals.len() == ln,
                    groups@.len() == ln + z,
                    groups@.map_values(|g: u16| g as int) == lvals + zero_groups(z as nat),
                decreases 8 - ln - rn - z,
            {
                let ghost before = groups@.map_values(|g: u16| g as int);
                groups.push(0);
                proof {
                    let after = groups@.map_values(|g: u16| g as int);
                    assert forall|t: int| 0 <= t < ln + z + 1 implies (#[trigger] after[t]) == (
                    lvals + zero_groups((z + 1) as nat))[t] by {
                        if t < ln + z {
                            assert(after[t] == before[t]);
                            assert(before[t] == (lvals + zero_groups(z as nat))[t]);
                            if t >= ln {
                                assert((lvals + zero_groups(z as nat))[t] == 0);
                                assert((lvals + zero_groups((z + 1) as nat))[t] == 0);
                            }
                        } else {
                            assert(after[t] == 0);
                            assert((lvals + zero_groups((z + 1) as nat))[t] == 0);
                        }
                    }
                    assert(after =~= lvals + zero_groups((z + 1) as nat));
                }
                z = z + 1;
            }
            let mut rv = rv;
            groups.append(&mut rv);
            proof {
                assert(groups@.map_values(|g: u16| g as int) =~= lvals + zero_groups(
                    (8 - ln - rn) as nat,
                ) + rvals);
            }
            Some(Ipv6 { groups })
        },
    }
}

/// Parses an IP address of either family, trying the dotted-decimal form
/// first; `None` exactly on strings valid in neither form.
pub fn parse_ip(s: &str) -> (r: Option<IpAddr>)
    ensures
        r is Some <==> (is_valid_ipv4(s@) || is_valid_ipv6(s@)),
        r matches Some(ip) ==> ip.wf(),
        is_valid_ipv4(s@) ==> (r matches Some(ip) && ip matches IpAddr::V4(v)
            && v.a as int == ipv4_octet(s@, 0) && v.b as int == ipv4_octet(s@, 1)
            && v.c as int == ipv4_octet(s@, 2) && v.d as int == ipv4_octet(s@, 3)),
        !is_valid_ipv4(s@) && is_valid_ipv6(s@) ==> (r matches Some(ip) && ip matches IpAddr::V6(v)
            && v.groups@.map_values(|g: u16| g as int) == ipv6_groups(s@)),
{
    match parse_ipv4(s) {
        Some(v) => Some(IpAddr::V4(v)),
        None => match parse_ipv6(s) {
            Some(v) => Some(IpAddr::V6(v)),
            None => None,
        },
    }
}

} // verus!
