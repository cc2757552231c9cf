//! Parsing of a launch request's query string: `&`-separated `key=value`
//! pairs, form decoding of keys and values, and extraction of the three
//! required parameters.
//!
//! Form decoding never fails: escapes yield bytes, and the byte sequence is
//! decoded as UTF-8 with every ill-formed sequence's maximal well-formed
//! prefix replaced by one replacement character, as a lossy decode does.

use vstd::prelude::*;
use crate::text::{hex_digit_val, is_hex_digit, lemma_split_on_first, lemma_split_on_no_sep, split_on, split_str};

verus! {

/// A launch request: the three decoded query parameters.
#[derive(Clone, PartialEq, Eq, Debug)]
pub struct LaunchRequest {
    pub client: String,
    pub user: String,
    pub path: String,
}

/// Why a query string is rejected; either is a request-level error and the
/// launch step is never reached.
#[derive(Clone, Copy, PartialEq, Eq, Debug)]
pub enum QueryError {
    /// A required parameter does not occur.
    MissingParam,
    /// A required parameter occurs more than once.
    DuplicateParam,
}

/// The UTF-8 encoding of one character.
pub open spec fn encode_char(c: char) -> Seq<u8> {
    let v = c as int;
    if v < 0x80 {
        seq![v as u8]
    } else if v < 0x800 {
        seq![(0xC0 + v / 0x40) as u8, (0x80 + v % 0x40) as u8]
    } else if v < 0x10000 {
        seq![
            (0xE0 + v / 0x1000) as u8,
            (0x80 + (v / 0x40) % 0x40) as u8,
            (0x80 + v % 0x40) as u8,
        ]
    } else {
        seq![
            (0xF0 + v / 0x40000) as u8,
            (0x80 + (v / 0x1000) % 0x40) as u8,
            (0x80 + (v / 0x40) % 0x40) as u8,
            (0x80 + v % 0x40) as u8,
        ]
    }
}

/// The bytes one component denotes: `+` a space, `%` followed by two
/// hexadecimal digits the byte with that value, and any other character (a
/// lone `%` included) its UTF-8 encoding.
pub open spec fn component_bytes(s: Seq<char>) -> Seq<u8>
    decreases s.len(),
{
    if s.len() == 0 {
        Seq::empty()
    } else if s[0] == '+' {
        seq![0x20u8] + component_bytes(s.drop_first())
    } else if s[0] == '%' && s.len() >= 3 && is_hex_digit(s[1]) && is_hex_digit(s[2]) {
        seq![(hex_digit_val(s[1]) * 16 + hex_digit_val(s[2])) as u8] + component_bytes(s.skip(3))
    } else {
        encode_char(s[0]) + component_bytes(s.drop_first())
    }
}

/// A UTF-8 continuation byte: high bits `10`.
pub open spec fn is_cont(b: u8) -> bool {
    0x80 <= b && b < 0xC0
}

/// One step of a lossy UTF-8 decode: how many bytes it consumes (at least
/// one) and the character it yields. A well-formed sequence yields its
/// scalar; anything else consumes the longest prefix of a well-formed
/// sequence and yields the replacement character.
pub open spec fn first_chunk(b: Seq<u8>) -> (int, char) {
    let b0 = b[0];
    if b0 < 0x80 {
        (1int, b0 as char)
    } else if 0xC2 <= b0 && b0 <= 0xDF {
        if b.len() >= 2 && is_cont(b[1]) {
            (2int, ((b0 - 0xC0) * 0x40 + (b[1] - 0x80)) as char)
        } else {
            (1int, '\u{FFFD}')
        }
    } else if 0xE0 <= b0 && b0 <= 0xEF {
        let lo: u8 = if b0 == 0xE0 { 0xA0 } else { 0x80 };
        let hi: u8 = if b0 == 0xED { 0x9F } else { 0xBF };
        if b.len() >= 2 && lo <= b[1] && b[1] <= hi {
            if b.len() >= 3 && is_cont(b[2]) {
                (3int, ((b0 - 0xE0) * 0x1000 + (b[1] - 0x80) * 0x40 + (b[2] - 0x80)) as char)
            } else {
                (2int, '\u{FFFD}')
            }
        } else {
            (1int, '\u{FFFD}')
        }
    } else if 0xF0 <= b0 && b0 <= 0xF4 {
        let lo: u8 = if b0 == 0xF0 { 0x90 } else { 0x80 };
        let hi: u8 = if b0 == 0xF4 { 0x8F } else { 0xBF };
        if b.len() >= 2 && lo <= b[1] && b[1] <= hi {
            if b.len() >= 3 && is_cont(b[2]) {
                if b.len() >= 4 && is_cont(b[3]) {
                    (
                        4int,
                        ((b0 - 0xF0) * 0x40000 + (b[1] - 0x80) * 0x1000 + (b[2] - 0x80) * 0x40 + (
                        b[3] - 0x80)) as char,
                    )
                } else {
                    (3int, '\u{FFFD}')
                }
            } else {
                (2int, '\u{FFFD}')
            }
        } else {
            (1int, '\u{FFFD}')
        }
    } else {
        (1int, '\u{FFFD}')
    }
}

/// Lossy UTF-8 decoding of a byte sequence.
pub open spec fn lossy_utf8(b: Seq<u8>) -> Seq<char>
    decreases b.len(),
{
    if b.len() == 0 {
        Seq::empty()
    } else {
        seq![first_chunk(b).1] + lossy_utf8(b.skip(first_chunk(b).0))
    }
}

/// The decoded characters of one component; decoding never fails.
pub open spec fn decoded(s: Seq<char>) -> Seq<char> {
    lossy_utf8(component_bytes(s))
}

/// Relies on String::push: appends exactly the one character.
#[verifier::external_body]
fn push_char(s: &mut String, c: char)
    ensures
        final(s)@ == old(s)@.push(c),
{
    s.push(c);
}

/// Relies on char::from_u32: defined on every Unicode scalar value, whose
/// code the returned character carries.
#[verifier::external_body]
fn char_from_u32(v: u32) -> (c: char)
    requires
        v < 0xD800 || (0xE000 <= v && v <= 0x10FFFF),
    ensures
        c == v as char,
        c as u32 == v,
{
    char::from_u32(v).unwrap()
}

/// Hexadecimal digit test, as `is_hex_digit`.
fn is_hex_char(c: char) -> (r: bool)
    ensures
        r == is_hex_digit(c),
{
    ('0' <= c && c <= '9') || ('a' <= c && c <= 'f') || ('A' <= c && c <= 'F')
}

/// Value of one hexadecimal digit, as `hex_digit_val`.
fn hex_char_val(c: char) -> (r: u32)
    requires
        is_hex_digit(c),
    ensures
        r as int == hex_digit_val(c),
{
    if c <= '9' {
        c as u32 - '0' as u32
    } else if c >= 'a' {
        (c as u32 - 'a' as u32) + 10
    } else {
        (c as u32 - 'A' as u32) + 10
    }
}

/// Decodes one component into its characters.
pub fn decode_component(s: &str) -> (r: String)
    ensures
        r@ == decoded(s@),
{
    let n = s.unicode_len();
    let mut i: usize = 0;
    let mut bytes: Vec<u8> = Vec::new();
    proof {
        assert(s@.skip(0int) =~= s@);
        assert(bytes@ + component_bytes(s@) =~= component_bytes(s@));
    }
    while i < n
        invariant
            n == s@.len(),
            i <= n,
            bytes@ + component_bytes(s@.skip(i as int)) == component_bytes(s@),
        decreases n - i,
    {
        let ghost rest = s@.skip(i as int);
        let ghost b0 = bytes@;
        let c = s.get_char(i);
        proof {
            assert(rest[0] == c);
            assert(rest.drop_first() =~= s@.skip(i as int + 1));
        }
        if c == '+' {
            bytes.push(0x20);
            proof {
                assert(component_bytes(rest) == seq![0x20u8] + component_bytes(
                    s@.skip(i as int + 1),
                ));
                assert(bytes@ + component_bytes(s@.skip(i as int + 1)) =~= b0 + component_bytes(
                    rest,
                ));
            }
            i = i + 1;
        } else {
            let mut escaped = false;
            if c == '%' && n - i >= 3 {
                let c1 = s.get_char(i + 1);
                let c2 = s.get_char(i + 2);
                proof {
                    assert(rest[1] == c1);
                    assert(rest[2] == c2);
                }
                if is_hex_char(c1) && is_hex_char(c2) {
                    escaped = true;
                    let v: u32 = hex_char_val(c1) * 16 + hex_char_val(c2);
                    bytes.push(v as u8);
                    proof {
                        assert(rest.skip(3) =~= s@.skip(i as int + 3));
                        assert(component_bytes(rest) == seq![
                            ((hex_digit_val(rest[1]) * 16 + hex_digit_val(rest[2])) as u8),
                        ] + component_bytes(s@.skip(i as int + 3)));
                        assert(bytes@ + component_bytes(s@.skip(i as int + 3)) =~= b0
                            + component_bytes(rest));
                    }
                    i = i + 3;
                }
            }
            if !escaped {
                let v: u32 = c as u32;
                if v < 0x80 {
                    bytes.push(v as u8);
                } else if v < 0x800 {
                    bytes.push((0xC0 + v / 0x40) as u8);
                    bytes.push((0x80 + v % 0x40) as u8);
                } else if v < 0x10000 {
                    bytes.push((0xE0 + v / 0x1000) as u8);
                    bytes.push((0x80 + (v / 0x40) % 0x40) as u8);
                    bytes.push((0x80 + v % 0x40) as u8);
                } else {
                    bytes.push((0xF0 + v / 0x40000) as u8);
                    bytes.push((0x80 + (v / 0x1000) % 0x40) as u8);
                    bytes.push((0x80 + (v / 0x40) % 0x40) as u8);
                    bytes.push((0x80 + v % 0x40) as u8);
                }
                proof {
                    assert(bytes@ =~= b0 + encode_char(c));
                    assert(component_bytes(rest) == encode_char(c) + component_bytes(
                        s@.skip(i as int + 1),
                    ));
                    assert(bytes@ + component_bytes(s@.skip(i as int + 1)) =~= b0
                        + component_bytes(rest));
                }
                i = i + 1;
            }
        }
    }
    proof {
        assert(s@.skip(n as int) =~= Seq::<char>::empty());
        assert(bytes@ + component_bytes(s@.skip(n as int)) =~= bytes@);
    }
    let m = bytes.len();
    let mut j: usize = 0;
    let mut out = String::new();
    proof {
        assert(bytes@.skip(0int) =~= bytes@);
        assert(out@ + lossy_utf8(bytes@) =~= lossy_utf8(bytes@));
    }
    while j < m
        invariant
            m == bytes@.len(),
            j <= m,
            bytes@ == component_bytes(s@),
            out@ + lossy_utf8(bytes@.skip(j as int)) == lossy_utf8(bytes@),
        decreases m - j,
    {
        let ghost rest = bytes@.skip(j as int);
        let ghost out0 = out@;
        let b = bytes[j];
        proof {
            assert(rest[0] == b);
        }
        let mut step: usize = 1;
        let mut ch: char = '\u{FFFD}';
        if b < 0x80 {
            ch = b as char;
        } else if 0xC2 <= b && b <= 0xDF {
            if j + 1 < m && 0x80 <= bytes[j + 1] && bytes[j + 1] < 0xC0 {
                proof {
                    assert(rest[1] == bytes@[j as int + 1]);
                }
                let v: u32 = (b as u32 - 0xC0) * 0x40 + (bytes[j + 1] as u32 - 0x80);
                ch = char_from_u32(v);
                step = 2;
            }
        } else if 0xE0 <= b && b <= 0xEF {
            let lo: u8 = if b == 0xE0 {
                0xA0
            } else {
                0x80
            };
            let hi: u8 = if b == 0xED {
                0x9F
            } else {
                0xBF
            };
            if j + 1 < m && lo <= bytes[j + 1] && bytes[j + 1] <= hi {
                proof {
                    assert(rest[1] == bytes@[j as int + 1]);
                }
                if j + 2 < m && 0x80 <= bytes[j + 2] && bytes[j + 2] < 0xC0 {
                    proof {
                        assert(rest[2] == bytes@[j as int + 2]);
                    }
                    let v: u32 = (b as u32 - 0xE0) * 0x1000 + (bytes[j + 1] as u32 - 0x80) * 0x40
                        + (bytes[j + 2] as u32 - 0x80);
                    assert(v < 0xD800 || v >= 0xE000);
                    ch = char_from_u32(v);
                    step = 3;
                } else {
                    step = 2;
                }
            }
        } else if 0xF0 <= b && b <= 0xF4 {
            let lo: u8 = if b == 0xF0 {
                0x90
            } else {
                0x80
            };
            let hi: u8 = if b == 0xF4 {
                0x8F
            } else {
                0xBF
            };
            if j + 1 < m && lo <= bytes[j + 1] && bytes[j + 1] <= hi {
                proof {
                    assert(rest[1] == bytes@[j as int + 1]);
                }
                if j + 2 < m && 0x80 <= bytes[j + 2] && bytes[j + 2] < 0xC0 {
                    proof {
                        assert(rest[2] == bytes@[j as int + 2]);
                    }
                    if j + 3 < m && 0x80 <= bytes[j + 3] && bytes[j + 3] < 0xC0 {
                        proof {
                            assert(rest[3] == bytes@[j as int + 3]);
                        }
                        let v: u32 = (b as u32 - 0xF0) * 0x40000 + (bytes[j + 1] as u32 - 0x80)
                            * 0x1000 + (bytes[j + 2] as u32 - 0x80) * 0x40 + (bytes[j + 3] as u32
                            - 0x80);
                        assert(v >= 0xE000);
                        ch = char_from_u32(v);
                        step = 4;
                    } else {
                        step = 3;
                    }
                } else {
                    step = 2;
                }
            }
        }
        proof {
            assert(first_chunk(rest) == (step as int, ch));
            assert(rest.skip(step as int) =~= bytes@.skip(j as int + step as int));
            assert(lossy_utf8(rest) == seq![ch] + lossy_utf8(bytes@.skip(j as int + step as int)));
        }
        push_char(&mut out, ch);
        proof {
            assert(out@ + lossy_utf8(bytes@.skip(j as int + step as int)) =~= out0 + lossy_utf8(
                rest,
            ));
        }
        j = j + step;
    }
    proof {
        assert(bytes@.skip(m as int) =~= Seq::<u8>::empty());
        assert(out@ + lossy_utf8(bytes@.skip(m as int)) =~= out@);
    }
    out
}

/// The key of one pair: what stands before the first `=`.
pub open spec fn key_of(p: Seq<char>) -> Seq<char> {
    split_on(p, '=')[0]
}

/// The raw value of one pair: what stands after the first `=`, empty when
/// there is no `=`.
pub open spec fn raw_val_of(p: Seq<char>) -> Seq<char> {
    if key_of(p).len() < p.len() {
        p.subrange(key_of(p).len() as int + 1, p.len() as int)
    } else {
        Seq::empty()
    }
}

/// Splits one pair at its first `=`.
fn split_pair(p: &str) -> (kv: (String, String))
    ensures
        kv.0@ == key_of(p@),
        kv.1@ == raw_val_of(p@),
{
    let n = p.unicode_len();
    let mut i: usize = 0;
    while i < n && p.get_char(i) != '='
        invariant
            i <= n,
            n == p@.len(),
            forall|j: int| 0 <= j < i ==> p@[j] != '=',
        decreases n - i,
    {
        i = i + 1;
    }
    if i == n {
        proof {
            lemma_split_on_no_sep(p@, '=');
        }
        (p.to_owned(), String::new())
    } else {
        let k = p.substring_char(0, i);
        let v = p.substring_char(i + 1, n);
        proof {
            assert(p@ =~= p@.take(i as int) + seq!['='] + p@.skip(i as int + 1));
            lemma_split_on_first(p@.take(i as int), '=', p@.skip(i as int + 1));
            assert(key_of(p@) == p@.take(i as int));
            assert(v@ =~= raw_val_of(p@));
        }
        (k.to_owned(), v.to_owned())
    }
}

/// How many pairs have a key that decodes to `name`.
pub open spec fn count_key(ps: Seq<Seq<char>>, name: Seq<char>) -> int
    decreases ps.len(),
{
    if ps.len() == 0 {
        0
    } else {
        count_key(ps.drop_last(), name) + if decoded(key_of(ps.last())) == name {
            1int
        } else {
            0
        }
    }
}

/// The raw value of the first pair whose key decodes to `name`.
pub open spec fn first_val(ps: Seq<Seq<char>>, name: Seq<char>) -> Option<Seq<char>>
    decreases ps.len(),
{
    if ps.len() == 0 {
        None
    } else if first_val(ps.drop_last(), name) is Some {
        first_val(ps.drop_last(), name)
    } else if decoded(key_of(ps.last())) == name {
        Some(raw_val_of(ps.last()))
    } else {
        None
    }
}

/// A well-formed query string: each required parameter occurs exactly once;
/// other parameters are ignored.
pub open spec fn query_ok(q: Seq<char>) -> bool {
    let ps = split_on(q, '&');
    &&& count_key(ps, "client"@) == 1
    &&& count_key(ps, "user"@) == 1
    &&& count_key(ps, "path"@) == 1
}

/// The decoded value of the parameter `name`.
pub open spec fn param_val(q: Seq<char>, name: Seq<char>) -> Seq<char> {
    decoded(first_val(split_on(q, '&'), name)->0)
}

proof fn lemma_count_key_step(ps: Seq<Seq<char>>, name: Seq<char>, k: int)
    requires
        0 <= k < ps.len(),
    ensures
        count_key(ps.take(k + 1), name) == count_key(ps.take(k), name) + if decoded(key_of(ps[k]))
            == name {
            1int
        } else {
            0
        },
{
    assert(ps.take(k + 1).drop_last() =~= ps.take(k));
    assert(ps.take(k + 1).last() == ps[k]);
}

proof fn lemma_first_val_step(ps: Seq<Seq<char>>, name: Seq<char>, k: int)
    requires
        0 <= k < ps.len(),
    ensures
        first_val(ps.take(k + 1), name) == (if first_val(ps.take(k), name) is Some {
            first_val(ps.take(k), name)
        } else if decoded(key_of(ps[k])) == name {
            Some(raw_val_of(ps[k]))
        } else {
            None
        }),
{
    assert(ps.take(k + 1).drop_last() =~= ps.take(k));
    assert(ps.take(k + 1).last() == ps[k]);
}

proof fn lemma_count_key_nonneg(ps: Seq<Seq<char>>, name: Seq<char>)
    ensures
        count_key(ps, name) >= 0,
    decreases ps.len(),
{
    if ps.len() > 0 {
        lemma_count_key_nonneg(ps.drop_last(), name);
    }
}

/// Prefix counts never shrink as the prefix grows.
proof fn lemma_count_key_mono(ps: Seq<Seq<char>>, name: Seq<char>, i: int, j: int)
    requires
        0 <= i <= j <= ps.len(),
    ensures
        count_key(ps.take(i), name) <= count_key(ps.take(j), name),
    decreases j - i,
{
    if i < j {
        lemma_count_key_mono(ps, name, i, j - 1);
        lemma_count_key_step(ps, name, j - 1);
    }
}

/// Where nothing is counted, nothing is found.
proof fn lemma_count_zero_first_none(ps: Seq<Seq<char>>, name: Seq<char>)
    requires
        count_key(ps, name) == 0,
    ensures
        first_val(ps, name) is None,
    decreases ps.len(),
{
    if ps.len() > 0 {
        lemma_count_key_nonneg(ps.drop_last(), name);
        lemma_count_zero_first_none(ps.drop_last(), name);
    }
}

/// Parses the query string of a launch request: `Ok` exactly on well-formed
/// query strings, whose three decoded parameter values it returns.
pub fn parse_query(q: &str) -> (r: Result<LaunchRequest, QueryError>)
    ensures
        r is Ok <==> query_ok(q@),
        r matches Ok(req) ==> req.client@ == param_val(q@, "client"@) && req.user@ == param_val(
            q@,
            "user"@,
        ) && req.path@ == param_val(q@, "path"@),
{
    let parts = split_str(q, '&');
    let ghost ps = split_on(q@, '&');
    proof {
        assert(parts@.map_values(|p: String| p@) =~= ps);
        assert(forall|j: int| 0 <= j < parts@.len() ==> ps[j] == (#[trigger] parts@[j])@);
    }
    let name_client = "client".to_owned();
    let name_user = "user".to_owned();
    let name_path = "path".to_owned();
    let mut client_v: Option<String> = None;
    let mut user_v: Option<String> = None;
    let mut path_v: Option<String> = None;
    let mut k: usize = 0;
    while k < parts.len()
        invariant
            ps == split_on(q@, '&'),
            parts@.len() == ps.len(),
            forall|j: int| 0 <= j < parts@.len() ==> ps[j] == (#[trigger] parts@[j])@,
            name_client@ == "client"@,
            name_user@ == "user"@,
            name_path@ == "path"@,
            k <= parts@.len(),
            client_v is Some <==> count_key(ps.take(k as int), "client"@) == 1,
            client_v is None ==> count_key(ps.take(k as int), "client"@) == 0,
            client_v matches Some(v) ==> v@ == decoded(first_val(ps.take(k as int), "client"@)->0),
            user_v is Some <==> count_key(ps.take(k as int), "user"@) == 1,
            user_v is None ==> count_key(ps.take(k as int), "user"@) == 0,
            user_v matches Some(v) ==> v@ == decoded(first_val(ps.take(k as int), "user"@)->0),
            path_v is Some <==> count_key(ps.take(k as int), "path"@) == 1,
            path_v is None ==> count_key(ps.take(k as int), "path"@) == 0,
            path_v matches Some(v) ==> v@ == decoded(first_val(ps.take(k as int), "path"@)->0),
        decreases parts@.len() - k,
    {
        let pair = split_pair(parts[k].as_str());
        let kd = decode_component(pair.0.as_str());
        let vd = decode_component(pair.1.as_str());
        proof {
            lemma_count_key_step(ps, "client"@, k as int);
            lemma_count_key_step(ps, "user"@, k as int);
            lemma_count_key_step(ps, "path"@, k as int);
            lemma_first_val_step(ps, "client"@, k as int);
            lemma_first_val_step(ps, "user"@, k as int);
            lemma_first_val_step(ps, "path"@, k as int);
            reveal_strlit("client");
            reveal_strlit("user");
            reveal_strlit("path");
            assert("client"@.len() != "user"@.len());
            assert("client"@.len() != "path"@.len());
            assert("user"@[0] != "path"@[0]);
            assert("client"@ != "user"@ && "client"@ != "path"@ && "user"@ != "path"@);
        }
        if kd == name_client {
            if client_v.is_some() {
                proof {
                    lemma_count_key_mono(ps, "client"@, k as int + 1, ps.len() as int);
                    assert(ps.take(ps.len() as int) =~= ps);
                }
                return Err(QueryError::DuplicateParam);
            }
            proof {
                lemma_count_zero_first_none(ps.take(k as int), "client"@);
            }
            client_v = Some(vd);
        } else if kd == name_user {
            if user_v.is_some() {
                proof {
                    lemma_count_key_mono(ps, "user"@, k as int + 1, ps.len() as int);
                    assert(ps.take(ps.len() as int) =~= ps);
                }
                return Err(QueryError::DuplicateParam);
            }
            proof {
                lemma_count_zero_first_none(ps.take(k as int), "user"@);
            }
            user_v = Some(vd);
        } else if kd == name_path {
            if path_v.is_some() {
                proof {
                    lemma_count_key_mono(ps, "path"@, k as int + 1, ps.len() as int);
                    assert(ps.take(ps.len() as int) =~= ps);
                }
                return Err(QueryError::DuplicateParam);
            }
            proof {
                lemma_count_zero_first_none(ps.take(k as int), "path"@);
            }
            path_v = Some(vd);
        }
        k = k + 1;
    }
    proof {
        assert(ps.take(parts@.len() as int) =~= ps);
    }
    let cv = match client_v {
        Some(v) => v,
        None => {
            return Err(QueryError::MissingParam);
        },
    };
    let uv = match user_v {
        Some(v) => v,
        None => {
            return Err(QueryError::MissingParam);
        },
    };
    let pv = match path_v {
        Some(v) => v,
        None => {
            return Err(QueryError::MissingParam);
        },
    };
    Ok(LaunchRequest { client: cv, user: uv, path: pv })
}

} // verus!
