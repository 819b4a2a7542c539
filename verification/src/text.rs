//! The socket-address literal grammar and its verified parsers.
//!
//! The grammar is stated as spec functions over sequences of characters.
//! It is positional and greedy: a number is always the longest run of
//! digits starting at the current position, an embedded IPv4 tail is
//! preferred over a hextet wherever at least two group slots remain, and
//! `::` may stand for one or more zero hextets exactly once. Each exec
//! parser returns precisely what the spec grammar assigns to its input.

use vstd::prelude::*;
use vstd::string::StrSliceExecFns;

use crate::addr::Ipv4Address;
use crate::addr::Ipv6Address;
use crate::addr::SocketAddress;
use crate::addr::SocketAddressV4;
use crate::addr::SocketAddressV6;

verus! {

pub open spec fn is_dec_digit(c: char) -> bool {
    48 <= (c as u32) && (c as u32) <= 57
}

pub open spec fn dec_digit_value(c: char) -> int {
    (c as u32) - 48
}

pub open spec fn is_hex_digit(c: char) -> bool {
    is_dec_digit(c)
    || (97 <= (c as u32) && (c as u32) <= 102)  // 'a' ..= 'f'
    || (65 <= (c as u32) && (c as u32) <= 70)  // 'A' ..= 'F'
}

pub open spec fn hex_digit_value(c: char) -> int {
    if is_dec_digit(c) {
        dec_digit_value(c)
    } else if 97 <= (c as u32) && (c as u32) <= 102 {
        (c as u32) - 87
    } else {
        (c as u32) - 55
    }
}

/// The first position at or after `i` that does not hold a decimal digit.
pub open spec fn dec_run_end(s: Seq<char>, i: int) -> int
    decreases s.len() - i,
{
    if 0 <= i && i < s.len() && is_dec_digit(s[i]) {
        dec_run_end(s, i + 1)
    } else {
        i
    }
}

/// The first position at or after `i` that does not hold a hex digit.
pub open spec fn hex_run_end(s: Seq<char>, i: int) -> int
    decreases s.len() - i,
{
    if 0 <= i && i < s.len() && is_hex_digit(s[i]) {
        hex_run_end(s, i + 1)
    } else {
        i
    }
}

/// The value of the decimal digits at positions `i ..= e - 1`.
pub open spec fn dec_value(s: Seq<char>, i: int, e: int) -> int
    decreases e - i,
{
    if i < e {
        dec_value(s, i, e - 1) * 10 + dec_digit_value(s[e - 1])
    } else {
        0
    }
}

/// The value of the hex digits at positions `i ..= e - 1`.
pub open spec fn hex_value(s: Seq<char>, i: int, e: int) -> int
    decreases e - i,
{
    if i < e {
        hex_value(s, i, e - 1) * 16 + hex_digit_value(s[e - 1])
    } else {
        0
    }
}

pub proof fn lemma_dec_value_nonneg(s: Seq<char>, i: int, e: int)
    requires
        forall|k: int| i <= k < e ==> 0 <= #[trigger] dec_digit_value(s[k]),
    ensures
        0 <= dec_value(s, i, e),
    decreases e - i,
{
    if i < e {
        lemma_dec_value_nonneg(s, i, e - 1);
    }
}

/// Appending digits never lowers a decimal value.
pub proof fn lemma_dec_value_monotone(s: Seq<char>, i: int, k: int, e: int)
    requires
        i <= k <= e,
        forall|j: int| i <= j < e ==> is_dec_digit(#[trigger] s[j]),
    ensures
        dec_value(s, i, k) <= dec_value(s, i, e),
    decreases e - k,
{
    if k < e {
        lemma_dec_value_monotone(s, i, k, e - 1);
        lemma_dec_value_nonneg(s, i, e - 1);
    }
}

pub proof fn lemma_hex_value_nonneg(s: Seq<char>, i: int, e: int)
    requires
        forall|k: int| i <= k < e ==> 0 <= #[trigger] hex_digit_value(s[k]),
    ensures
        0 <= hex_value(s, i, e),
    decreases e - i,
{
    if i < e {
        lemma_hex_value_nonneg(s, i, e - 1);
    }
}

/// At most four hex digits stay below 2^16.
pub proof fn lemma_hex_value_bound(s: Seq<char>, i: int, e: int)
    requires
        forall|j: int| i <= j < e ==> is_hex_digit(#[trigger] s[j]),
        e - i <= 4,
    ensures
        hex_value(s, i, e) < 0x10000,
        0 <= hex_value(s, i, e),
    decreases e - i,
{
    if i < e {
        lemma_hex_value_bound(s, i, e - 1);
        assert(hex_value(s, i, e - 1) < 0x1000) by {
            lemma_hex_value_bound_tight(s, i, e - 1);
        }
    }
}

proof fn lemma_hex_value_bound_tight(s: Seq<char>, i: int, e: int)
    requires
        forall|j: int| i <= j < e ==> is_hex_digit(#[trigger] s[j]),
        e - i <= 3,
    ensures
        hex_value(s, i, e) < 0x1000,
        0 <= hex_value(s, i, e),
    decreases e - i,
{
    if i < e {
        lemma_hex_value_bound_tight(s, i, e - 1);
        assert(hex_value(s, i, e - 1) < 0x100) by {
            lemma_hex_value_bound_tight2(s, i, e - 1);
        }
    }
}

proof fn lemma_hex_value_bound_tight2(s: Seq<char>, i: int, e: int)
    requires
        forall|j: int| i <= j < e ==> is_hex_digit(#[trigger] s[j]),
        e - i <= 2,
    ensures
        hex_value(s, i, e) < 0x100,
        0 <= hex_value(s, i, e),
    decreases e - i,
{
    if i < e {
        lemma_hex_value_bound_tight2(s, i, e - 1);
        assert(hex_value(s, i, e - 1) < 0x10) by {
            if i < e - 1 {
                lemma_hex_value_bound_tight2(s, i, e - 2);
            }
        }
    }
}

/// A decimal octet starting at `i`: one to three digits, no leading zero
/// unless the octet is exactly `0`, value at most 255. Yields the value and
/// the position just past the digits.
pub open spec fn octet_after(s: Seq<char>, i: int) -> Option<(int, int)> {
    let e = dec_run_end(s, i);
    if i < e && e - i <= 3 && !(e - i > 1 && s[i] == '0') && dec_value(s, i, e) <= 255 {
        Some((dec_value(s, i, e), e))
    } else {
        None
    }
}

/// A dotted-quad IPv4 literal starting at `i`.
pub open spec fn ipv4_after(s: Seq<char>, i: int) -> Option<(Ipv4Address, int)> {
    match octet_after(s, i) {
        None => None,
        Some((v0, e0)) => if e0 < s.len() && s[e0] == '.' {
            match octet_after(s, e0 + 1) {
                None => None,
                Some((v1, e1)) => if e1 < s.len() && s[e1] == '.' {
                    match octet_after(s, e1 + 1) {
                        None => None,
                        Some((v2, e2)) => if e2 < s.len() && s[e2] == '.' {
                            match octet_after(s, e2 + 1) {
                                None => None,
                                Some((v3, e3)) => Some(
                                    (Ipv4Address {
                                        o0: v0 as u8,
                                        o1: v1 as u8,
                                        o2: v2 as u8,
                                        o3: v3 as u8,
                                    }, e3),
                                ),
                            }
                        } else {
                            None
                        },
                    }
                } else {
                    None
                },
            }
        } else {
            None
        },
    }
}

/// A port number starting at `i`: one or more decimal digits, leading
/// zeroes allowed, value at most 65535.
pub open spec fn port_after(s: Seq<char>, i: int) -> Option<(int, int)> {
    let e = dec_run_end(s, i);
    if i < e && dec_value(s, i, e) <= 65535 {
        Some((dec_value(s, i, e), e))
    } else {
        None
    }
}

/// An optional `%scope` suffix starting at `i`. Without a `%` it yields
/// scope id 0 and consumes nothing; with one, the digits must form a value
/// that fits 32 bits, leading zeroes allowed.
pub open spec fn scope_after(s: Seq<char>, i: int) -> Option<(int, int)> {
    if 0 <= i && i < s.len() && s[i] == '%' {
        let e = dec_run_end(s, i + 1);
        if i + 1 < e && dec_value(s, i + 1, e) <= 0xFFFF_FFFF {
            Some((dec_value(s, i + 1, e), e))
        } else {
            None
        }
    } else {
        Some((0, i))
    }
}

/// A hextet starting at `i`: one to four hex digits.
pub open spec fn hextet_after(s: Seq<char>, i: int) -> Option<(int, int)> {
    let e = hex_run_end(s, i);
    if i < e && e - i <= 4 {
        Some((hex_value(s, i, e), e))
    } else {
        None
    }
}

/// Reads up to `slots` colon-separated hextets starting at `i`, preferring
/// an embedded IPv4 tail (which takes two slots) wherever at least two
/// slots remain. `first` says whether the group at `i` is the first of its
/// sequence (no separator before it). Yields the group values, the position
/// after the last group read, and whether an IPv4 tail was read.
pub open spec fn groups_after(s: Seq<char>, i: int, slots: int, first: bool) -> (Seq<int>, int, bool)
    decreases slots,
{
    if slots <= 0 {
        (Seq::<int>::empty(), i, false)
    } else if !first && !(0 <= i && i < s.len() && s[i] == ':') {
        (Seq::<int>::empty(), i, false)
    } else {
        let j = if first { i } else { i + 1 };
        if slots >= 2 && ipv4_after(s, j) is Some {
            let (a, e) = ipv4_after(s, j)->Some_0;
            (seq![(a.o0 as int) * 256 + (a.o1 as int), (a.o2 as int) * 256 + (a.o3 as int)], e, true)
        } else {
            match hextet_after(s, j) {
                None => (Seq::<int>::empty(), i, false),
                Some((g, e)) => {
                    let rest = groups_after(s, e, slots - 1, false);
                    (seq![g] + rest.0, rest.1, rest.2)
                },
            }
        }
    }
}

/// An IPv6 literal starting at `i`: either eight groups outright, or some
/// groups, a `::` standing for at least one zero group, and some more
/// groups; an embedded IPv4 tail may only end the address. Yields the eight
/// group values and the position just past the literal.
pub open spec fn ipv6_after(s: Seq<char>, i: int) -> Option<(Seq<int>, int)> {
    let head = groups_after(s, i, 8, true);
    if head.0.len() == 8 {
        Some((head.0, head.1))
    } else if head.2 {
        None
    } else if head.1 + 1 < s.len() && s[head.1] == ':' && s[head.1 + 1] == ':' {
        let tail = groups_after(s, head.1 + 2, 7 - head.0.len(), true);
        Some(
            (head.0 + Seq::<int>::new((8 - head.0.len() - tail.0.len()) as nat, |k: int| 0)
                + tail.0, tail.1),
        )
    } else {
        None
    }
}

/// The eight group values of an IPv6 literal as an address value.
pub open spec fn ipv6_from_groups(g: Seq<int>) -> Ipv6Address {
    Ipv6Address {
        s0: g[0] as u16,
        s1: g[1] as u16,
        s2: g[2] as u16,
        s3: g[3] as u16,
        s4: g[4] as u16,
        s5: g[5] as u16,
        s6: g[6] as u16,
        s7: g[7] as u16,
    }
}

/// A whole IPv4 address literal, such as `192.168.0.1`.
pub open spec fn parse_ipv4(s: Seq<char>) -> Option<Ipv4Address> {
    match ipv4_after(s, 0) {
        Some((a, e)) => if e == s.len() {
            Some(a)
        } else {
            None
        },
        None => None,
    }
}

/// A whole IPv6 host text as it may stand between brackets: an IPv6
/// literal with an optional `%scope` suffix. The scope id read from the
/// text is returned beside the address.
pub open spec fn parse_v6_host(s: Seq<char>) -> Option<(Ipv6Address, int)> {
    match ipv6_after(s, 0) {
        None => None,
        Some((g, e)) => match scope_after(s, e) {
            None => None,
            Some((sc, e2)) => if e2 == s.len() {
                Some((ipv6_from_groups(g), sc))
            } else {
                None
            },
        },
    }
}

/// A whole IPv4 socket-address literal, such as `192.168.0.1:80`.
pub open spec fn parse_socket_v4(s: Seq<char>) -> Option<SocketAddressV4> {
    match ipv4_after(s, 0) {
        None => None,
        Some((a, e)) => if e < s.len() && s[e] == ':' {
            match port_after(s, e + 1) {
                None => None,
                Some((p, e2)) => if e2 == s.len() {
                    Some(SocketAddressV4 { ip: a, port: p as u16 })
                } else {
                    None
                },
            }
        } else {
            None
        },
    }
}

/// A whole IPv6 socket-address literal, such as `[2001:db8::1%3]:80`. The
/// flow info of a parsed literal is always zero; the scope id comes from
/// the optional `%scope` suffix.
pub open spec fn parse_socket_v6(s: Seq<char>) -> Option<SocketAddressV6> {
    if s.len() > 0 && s[0] == '[' {
        match ipv6_after(s, 1) {
            None => None,
            Some((g, e)) => match scope_after(s, e) {
                None => None,
                Some((sc, e2)) => if e2 + 1 < s.len() && s[e2] == ']' && s[e2 + 1] == ':' {
                    match port_after(s, e2 + 2) {
                        None => None,
                        Some((p, e3)) => if e3 == s.len() {
                            Some(
                                SocketAddressV6 {
                                    ip: ipv6_from_groups(g),
                                    port: p as u16,
                                    flowinfo: 0,
                                    scope_id: sc as u32,
                                },
                            )
                        } else {
                            None
                        },
                    }
                } else {
                    None
                },
            },
        }
    } else {
        None
    }
}

/// A whole socket-address literal of either family.
pub open spec fn parse_socket_addr(s: Seq<char>) -> Option<SocketAddress> {
    match parse_socket_v4(s) {
        Some(a) => Some(SocketAddress::V4(a)),
        None => match parse_socket_v6(s) {
            Some(a) => Some(SocketAddress::V6(a)),
            None => None,
        },
    }
}

fn is_dec_digit_x(c: char) -> (b: bool)
    ensures
        b == is_dec_digit(c),
{
    let u = c as u32;
    48 <= u && u <= 57
}

fn is_hex_digit_x(c: char) -> (b: bool)
    ensures
        b == is_hex_digit(c),
{
    let u = c as u32;
    (48 <= u && u <= 57) || (97 <= u && u <= 102) || (65 <= u && u <= 70)
}

fn dec_run_end_x(s: &str, len: usize, i: usize) -> (e: usize)
    requires
        len as nat == s@.len(),
        i <= len,
    ensures
        e as int == dec_run_end(s@, i as int),
        i <= e <= len,
        forall|k: int| i <= k < e ==> is_dec_digit(#[trigger] s@[k]),
{
    let mut e = i;
    loop
        invariant
            len as nat == s@.len(),
            i <= e <= len,
            dec_run_end(s@, i as int) == dec_run_end(s@, e as int),
            forall|k: int| i <= k < e ==> is_dec_digit(#[trigger] s@[k]),
        decreases len - e,
    {
        if e < len && is_dec_digit_x(s.get_char(e)) {
            e = e + 1;
        } else {
            return e;
        }
    }
}

fn hex_run_end_x(s: &str, len: usize, i: usize) -> (e: usize)
    requires
        len as nat == s@.len(),
        i <= len,
    ensures
        e as int == hex_run_end(s@, i as int),
        i <= e <= len,
        forall|k: int| i <= k < e ==> is_hex_digit(#[trigger] s@[k]),
{
    let mut e = i;
    loop
        invariant
            len as nat == s@.len(),
            i <= e <= len,
            hex_run_end(s@, i as int) == hex_run_end(s@, e as int),
            forall|k: int| i <= k < e ==> is_hex_digit(#[trigger] s@[k]),
        decreases len - e,
    {
        if e < len && is_hex_digit_x(s.get_char(e)) {
            e = e + 1;
        } else {
            return e;
        }
    }
}

/// The value of the decimal digits at `i ..= e - 1`, unless it exceeds
/// `cap`.
fn dec_value_up_to(s: &str, len: usize, i: usize, e: usize, cap: u64) -> (r: Option<u64>)
    requires
        len as nat == s@.len(),
        i <= e <= len,
        cap <= 0xFFFF_FFFF,
        forall|k: int| i <= k < e ==> is_dec_digit(#[trigger] s@[k]),
    ensures
        match r {
            Some(v) => v as int == dec_value(s@, i as int, e as int) && v <= cap,
            None => dec_value(s@, i as int, e as int) > cap,
        },
{
    let mut k = i;
    let mut acc: u64 = 0;
    while k < e
        invariant
            len as nat == s@.len(),
            i <= k <= e <= len,
            cap <= 0xFFFF_FFFF,
            forall|j: int| i <= j < e ==> is_dec_digit(#[trigger] s@[j]),
            acc as int == dec_value(s@, i as int, k as int),
            acc <= cap,
        decreases e - k,
    {
        let d = (s.get_char(k) as u32 - 48) as u64;
        let nv: u64 = acc * 10 + d;
        assert(nv as int == dec_value(s@, i as int, k + 1));
        if nv > cap {
            proof {
                lemma_dec_value_monotone(s@, i as int, k + 1, e as int);
            }
            return None;
        }
        acc = nv;
        k = k + 1;
    }
    Some(acc)
}

/// The value of the hex digits at `i ..= e - 1`; at most four digits, so it
/// fits sixteen bits.
fn hex_value_of(s: &str, len: usize, i: usize, e: usize) -> (v: u32)
    requires
        len as nat == s@.len(),
        i <= e <= len,
        e - i <= 4,
        forall|k: int| i <= k < e ==> is_hex_digit(#[trigger] s@[k]),
    ensures
        v as int == hex_value(s@, i as int, e as int),
        v < 0x10000,
{
    let mut k = i;
    let mut acc: u32 = 0;
    while k < e
        invariant
            len as nat == s@.len(),
            i <= k <= e <= len,
            e - i <= 4,
            forall|j: int| i <= j < e ==> is_hex_digit(#[trigger] s@[j]),
            acc as int == hex_value(s@, i as int, k as int),
            acc < 0x10000,
        decreases e - k,
    {
        let u = s.get_char(k) as u32;
        let d: u32 = if 48 <= u && u <= 57 {
            u - 48
        } else if 97 <= u && u <= 102 {
            u - 87
        } else {
            u - 55
        };
        proof {
            lemma_hex_value_bound(s@, i as int, k + 1);
        }
        acc = acc * 16 + d;
        k = k + 1;
    }
    proof {
        lemma_hex_value_bound(s@, i as int, e as int);
    }
    acc
}

fn octet_x(s: &str, len: usize, i: usize) -> (r: Option<(u8, usize)>)
    requires
        len as nat == s@.len(),
        i <= len,
    ensures
        match r {
            Some((v, e)) => octet_after(s@, i as int) == Some((v as int, e as int)) && i < e <= len,
            None => octet_after(s@, i as int) is None,
        },
{
    let e = dec_run_end_x(s, len, i);
    let n = e - i;
    if 1 <= n && n <= 3 && !(n > 1 && s.get_char(i) == '0') {
        match dec_value_up_to(s, len, i, e, 255) {
            Some(v) => Some(((v as u8), e)),
            None => None,
        }
    } else {
        None
    }
}

fn ipv4_x(s: &str, len: usize, i: usize) -> (r: Option<(Ipv4Address, usize)>)
    requires
        len as nat == s@.len(),
        i <= len,
    ensures
        match r {
            Some((a, e)) => ipv4_after(s@, i as int) == Some((a, e as int)) && i < e <= len,
            None => ipv4_after(s@, i as int) is None,
        },
{
    match octet_x(s, len, i) {
        None => None,
        Some((v0, e0)) => if e0 < len && s.get_char(e0) == '.' {
            match octet_x(s, len, e0 + 1) {
                None => None,
                Some((v1, e1)) => if e1 < len && s.get_char(e1) == '.' {
                    match octet_x(s, len, e1 + 1) {
                        None => None,
                        Some((v2, e2)) => if e2 < len && s.get_char(e2) == '.' {
                            match octet_x(s, len, e2 + 1) {
                                None => None,
                                Some((v3, e3)) => Some(
                                    (Ipv4Address { o0: v0, o1: v1, o2: v2, o3: v3 }, e3),
                                ),
                            }
                        } else {
                            None
                        },
                    }
                } else {
                    None
                },
            }
        } else {
            None
        },
    }
}

fn port_x(s: &str, len: usize, i: usize) -> (r: Option<(u16, usize)>)
    requires
        len as nat == s@.len(),
        i <= len,
    ensures
        match r {
            Some((v, e)) => port_after(s@, i as int) == Some((v as int, e as int)) && i < e <= len,
            None => port_after(s@, i as int) is None,
        },
{
    let e = dec_run_end_x(s, len, i);
    if i < e {
        match dec_value_up_to(s, len, i, e, 65535) {
            Some(v) => Some(((v as u16), e)),
            None => None,
        }
    } else {
        None
    }
}

fn scope_x(s: &str, len: usize, i: usize) -> (r: Option<(u32, usize)>)
    requires
        len as nat == s@.len(),
        i <= len,
    ensures
        match r {
            Some((v, e)) => scope_after(s@, i as int) == Some((v as int, e as int)) && i <= e
                <= len,
            None => scope_after(s@, i as int) is None,
        },
{
    if i < len && s.get_char(i) == '%' {
        let e = dec_run_end_x(s, len, i + 1);
        if i + 1 < e {
            match dec_value_up_to(s, len, i + 1, e, 0xFFFF_FFFF) {
                Some(v) => Some(((v as u32), e)),
                None => None,
            }
        } else {
            None
        }
    } else {
        Some((0, i))
    }
}

fn hextet_x(s: &str, len: usize, i: usize) -> (r: Option<(u16, usize)>)
    requires
        len as nat == s@.len(),
        i <= len,
    ensures
        match r {
            Some((g, e)) => hextet_after(s@, i as int) == Some((g as int, e as int)) && i < e
                <= len,
            None => hextet_after(s@, i as int) is None,
        },
{
    let e = hex_run_end_x(s, len, i);
    let n = e - i;
    if 1 <= n && n <= 4 {
        let v = hex_value_of(s, len, i, e);
        Some(((v as u16), e))
    } else {
        None
    }
}

fn groups_x(s: &str, len: usize, i: usize, slots: u8, first: bool) -> (r: (Vec<u16>, usize, bool))
    requires
        len as nat == s@.len(),
        i <= len,
        slots <= 8,
    ensures
        r.0@.map_values(|x: u16| x as int) == groups_after(s@, i as int, slots as int, first).0,
        r.1 as int == groups_after(s@, i as int, slots as int, first).1,
        r.2 == groups_after(s@, i as int, slots as int, first).2,
        i <= r.1 <= len,
        r.0.len() <= slots,
    decreases slots,
{
    let ghost sp = groups_after(s@, i as int, slots as int, first);
    if slots == 0 {
        let out: Vec<u16> = Vec::new();
        assert(out@.map_values(|x: u16| x as int) =~= sp.0);
        (out, i, false)
    } else if !first && !(i < len && s.get_char(i) == ':') {
        let out: Vec<u16> = Vec::new();
        assert(out@.map_values(|x: u16| x as int) =~= sp.0);
        (out, i, false)
    } else {
        let j = if first {
            i
        } else {
            i + 1
        };
        let four = if slots >= 2 {
            ipv4_x(s, len, j)
        } else {
            None
        };
        match four {
            Some((a, e)) => {
                let mut out: Vec<u16> = Vec::new();
                out.push((a.o0 as u16) * 256 + (a.o1 as u16));
                out.push((a.o2 as u16) * 256 + (a.o3 as u16));
                assert(out@.map_values(|x: u16| x as int) =~= sp.0);
                (out, e, true)
            },
            None => {
                match hextet_x(s, len, j) {
                    None => {
                        let out: Vec<u16> = Vec::new();
                        assert(out@.map_values(|x: u16| x as int) =~= sp.0);
                        (out, i, false)
                    },
                    Some((g, e)) => {
                        let rest = groups_x(s, len, e, slots - 1, false);
                        let mut out = rest.0;
                        out.insert(0, g);
                        assert(out@.map_values(|x: u16| x as int) =~= sp.0);
                        (out, rest.1, rest.2)
                    },
                }
            },
        }
    }
}

fn ipv6_from_vec(v: &Vec<u16>) -> (a: Ipv6Address)
    requires
        v@.len() == 8,
    ensures
        a == ipv6_from_groups(v@.map_values(|x: u16| x as int)),
{
    Ipv6Address {
        s0: v[0],
        s1: v[1],
        s2: v[2],
        s3: v[3],
        s4: v[4],
        s5: v[5],
        s6: v[6],
        s7: v[7],
    }
}

fn ipv6_x(s: &str, len: usize, i: usize) -> (r: Option<(Ipv6Address, usize)>)
    requires
        len as nat == s@.len(),
        i <= len,
    ensures
        match r {
            Some((a, e)) => ipv6_after(s@, i as int) matches Some((g, ge)) && a
                == ipv6_from_groups(g) && e as int == ge && i <= e <= len,
            None => ipv6_after(s@, i as int) is None,
        },
{
    let (hg, he, hv4) = groups_x(s, len, i, 8, true);
    if hg.len() == 8 {
        Some((ipv6_from_vec(&hg), he))
    } else if hv4 {
        None
    } else if he < len && he + 1 < len && s.get_char(he) == ':' && s.get_char(he + 1) == ':' {
        let slots_left = (7 - hg.len()) as u8;
        let (tg, te, _) = groups_x(s, len, he + 2, slots_left, true);
        let mut full = hg;
        let ghost hgv = full@;
        let zeros = 8 - full.len() - tg.len();
        let mut z: usize = 0;
        while z < zeros
            invariant
                z <= zeros,
                full@ == hgv + Seq::<u16>::new(z as nat, |k: int| 0u16),
            decreases zeros - z,
        {
            full.push(0);
            proof {
                assert((hgv + Seq::<u16>::new(z as nat, |k: int| 0u16)).push(0u16) =~= hgv
                    + Seq::<u16>::new((z + 1) as nat, |k: int| 0u16));
            }
            z = z + 1;
        }
        let ghost zv = Seq::<u16>::new(zeros as nat, |k: int| 0u16);
        let tn = tg.len();
        let mut t: usize = 0;
        while t < tn
            invariant
                t <= tn,
                tn == tg.len(),
                full@ == hgv + zv + tg@.take(t as int),
            decreases tn - t,
        {
            full.push(tg[t]);
            proof {
                assert((hgv + zv + tg@.take(t as int)).push(tg@[t as int]) =~= hgv + zv + tg@.take(
                    t + 1,
                ));
            }
            t = t + 1;
        }
        proof {
            assert(tg@.take(tn as int) =~= tg@);
            let spg = ipv6_after(s@, i as int)->Some_0.0;
            assert(full@.map_values(|x: u16| x as int) =~= spg);
        }
        Some((ipv6_from_vec(&full), te))
    } else {
        None
    }
}

/// The character of one decimal digit.
pub open spec fn digit_char(d: int) -> char {
    ((48 + d) as u8) as char
}

/// The canonical decimal text of `n`: no sign, no leading zeroes.
pub open spec fn dec_text(n: int) -> Seq<char>
    decreases n,
{
    if n < 10 {
        seq![digit_char(n)]
    } else {
        dec_text(n / 10).push(digit_char(n % 10))
    }
}

/// The canonical dotted-quad text of an IPv4 address.
pub open spec fn ipv4_text(a: Ipv4Address) -> Seq<char> {
    dec_text(a.o0 as int) + seq!['.'] + dec_text(a.o1 as int) + seq!['.'] + dec_text(a.o2 as int)
        + seq!['.'] + dec_text(a.o3 as int)
}

/// The canonical `ip:port` text of an IPv4 socket address.
pub open spec fn socket_v4_text(sa: SocketAddressV4) -> Seq<char> {
    ipv4_text(sa.ip) + seq![':'] + dec_text(sa.port as int)
}

/// The value of a whole digit text.
pub open spec fn text_value(t: Seq<char>) -> int {
    dec_value(t, 0, t.len() as int)
}

/// A decimal value reads the same out of any sequence that holds the same
/// characters over the range.
proof fn lemma_dec_value_congruent(s: Seq<char>, t: Seq<char>, i: int, e: int)
    requires
        forall|k: int| i <= k < e ==> s[k] == t[k],
    ensures
        dec_value(s, i, e) == dec_value(t, i, e),
    decreases e - i,
{
    if i < e {
        lemma_dec_value_congruent(s, t, i, e - 1);
    }
}

/// A decimal value over a range is the value of that range cut out.
proof fn lemma_dec_value_shift(s: Seq<char>, i: int, e: int)
    requires
        0 <= i <= e <= s.len(),
    ensures
        dec_value(s, i, e) == text_value(s.subrange(i, e)),
    decreases e - i,
{
    if i < e {
        lemma_dec_value_shift(s, i, e - 1);
        let sub = s.subrange(i, e);
        let sub1 = s.subrange(i, e - 1);
        assert(sub.len() == e - i);
        assert(sub[sub.len() - 1] == s[e - 1]);
        assert(forall|k: int| 0 <= k < sub1.len() ==> sub1[k] == sub[k]);
        lemma_dec_value_congruent(sub1, sub, 0, e - 1 - i);
        assert(text_value(sub) == dec_value(sub, 0, e - i - 1) * 10 + dec_digit_value(s[e - 1]));
    }
}

/// A run of digits closed off by a non-digit (or the end) is exactly the
/// maximal run the grammar reads.
proof fn lemma_dec_run_end_is(s: Seq<char>, i: int, e: int)
    requires
        0 <= i <= e <= s.len(),
        forall|k: int| i <= k < e ==> is_dec_digit(#[trigger] s[k]),
        e == s.len() || !is_dec_digit(s[e]),
    ensures
        dec_run_end(s, i) == e,
    decreases e - i,
{
    if i < e {
        lemma_dec_run_end_is(s, i + 1, e);
    }
}

/// The canonical decimal text: its length, digits, value and leading
/// character.
proof fn lemma_dec_text_props(n: int)
    requires
        0 <= n,
    ensures
        1 <= dec_text(n).len(),
        n < 10 ==> dec_text(n).len() == 1,
        n < 100 ==> dec_text(n).len() <= 2,
        n < 1000 ==> dec_text(n).len() <= 3,
        n < 10000 ==> dec_text(n).len() <= 4,
        n < 100000 ==> dec_text(n).len() <= 5,
        forall|k: int| 0 <= k < dec_text(n).len() ==> is_dec_digit(#[trigger] dec_text(n)[k]),
        text_value(dec_text(n)) == n,
        n > 0 ==> dec_text(n)[0] != '0',
    decreases n,
{
    if n < 10 {
        let t = dec_text(n);
        assert((48 + n) as u8 == 48 + n);
        assert((digit_char(n) as u32) == 48 + n);
        assert(t == seq![digit_char(n)]);
        assert(t.len() == 1);
        assert(dec_value(t, 0, 1) == dec_value(t, 0, 0) * 10 + dec_digit_value(t[0]));
        assert(text_value(t) == n);
    } else {
        lemma_dec_text_props(n / 10);
        let t = dec_text(n / 10);
        let c = digit_char(n % 10);
        assert((48 + n % 10) as u8 == 48 + n % 10);
        assert((c as u32) == 48 + n % 10);
        let w = t.push(c);
        let l = t.len() as int;
        assert(forall|k: int| 0 <= k < l ==> w[k] == t[k]);
        lemma_dec_value_congruent(t, w, 0, l);
        assert(w.len() == l + 1);
        assert(w[l] == c);
        assert(dec_value(w, 0, l + 1) == dec_value(w, 0, l) * 10 + dec_digit_value(w[l]));
        assert(dec_value(w, 0, l) == text_value(t));
        assert(n / 10 * 10 + n % 10 == n);
        assert(text_value(w) == n);
        assert(w[0] == t[0]);
    }
}

/// A canonical octet text sitting at `i` and closed off by a non-digit
/// (or the end) reads back as exactly that octet.
proof fn lemma_octet_at_text(s: Seq<char>, i: int, n: int)
    requires
        0 <= n <= 255,
        0 <= i,
        i + dec_text(n).len() <= s.len(),
        s.subrange(i, i + dec_text(n).len() as int) == dec_text(n),
        i + dec_text(n).len() == s.len() || !is_dec_digit(s[i + dec_text(n).len()]),
    ensures
        octet_after(s, i) == Some((n, i + dec_text(n).len() as int)),
{
    lemma_dec_text_props(n);
    let t = dec_text(n);
    let l = t.len() as int;
    let e = i + l;
    assert(forall|k: int| i <= k < e ==> #[trigger] s[k] == t[k - i]) by {
        assert(forall|k: int| i <= k < e ==> s.subrange(i, e)[k - i] == #[trigger] s[k]);
    }
    assert(forall|k: int| i <= k < e ==> is_dec_digit(#[trigger] s[k]));
    lemma_dec_run_end_is(s, i, e);
    lemma_dec_value_shift(s, i, e);
    assert(dec_value(s, i, e) == text_value(t));
    if l > 1 {
        assert(n >= 10);
        assert(t[0] != '0');
        assert(s[i] == t[0]);
    }
}

/// A canonical port text sitting at `i` and closed off by a non-digit (or
/// the end) reads back as exactly that port.
proof fn lemma_port_at_text(s: Seq<char>, i: int, n: int)
    requires
        0 <= n <= 65535,
        0 <= i,
        i + dec_text(n).len() <= s.len(),
        s.subrange(i, i + dec_text(n).len() as int) == dec_text(n),
        i + dec_text(n).len() == s.len() || !is_dec_digit(s[i + dec_text(n).len()]),
    ensures
        port_after(s, i) == Some((n, i + dec_text(n).len() as int)),
{
    lemma_dec_text_props(n);
    let t = dec_text(n);
    let l = t.len() as int;
    let e = i + l;
    assert(forall|k: int| i <= k < e ==> #[trigger] s[k] == t[k - i]) by {
        assert(forall|k: int| i <= k < e ==> s.subrange(i, e)[k - i] == #[trigger] s[k]);
    }
    assert(forall|k: int| i <= k < e ==> is_dec_digit(#[trigger] s[k]));
    lemma_dec_run_end_is(s, i, e);
    lemma_dec_value_shift(s, i, e);
    assert(dec_value(s, i, e) == text_value(t));
}

/// Every dotted-quad text in canonical form parses back to exactly the
/// address it was written from: the grammar accepts all of them, and the
/// parse loses nothing.
pub proof fn lemma_ipv4_text_parses(a: Ipv4Address)
    ensures
        parse_ipv4(ipv4_text(a)) == Some(a),
{
    let t0 = dec_text(a.o0 as int);
    let t1 = dec_text(a.o1 as int);
    let t2 = dec_text(a.o2 as int);
    let t3 = dec_text(a.o3 as int);
    lemma_dec_text_props(a.o0 as int);
    lemma_dec_text_props(a.o1 as int);
    lemma_dec_text_props(a.o2 as int);
    lemma_dec_text_props(a.o3 as int);
    let l0 = t0.len() as int;
    let l1 = t1.len() as int;
    let l2 = t2.len() as int;
    let l3 = t3.len() as int;
    let s = ipv4_text(a);
    assert(s.len() == l0 + l1 + l2 + l3 + 3);
    let p1 = l0 + 1;
    let p2 = l0 + l1 + 2;
    let p3 = l0 + l1 + l2 + 3;
    assert(s.subrange(0, l0) =~= t0);
    assert(s[l0] == '.');
    assert(s.subrange(p1, p1 + l1) =~= t1);
    assert(s[p2 - 1] == '.');
    assert(s.subrange(p2, p2 + l2) =~= t2);
    assert(s[p3 - 1] == '.');
    assert(s.subrange(p3, p3 + l3) =~= t3);
    lemma_octet_at_text(s, 0, a.o0 as int);
    lemma_octet_at_text(s, p1, a.o1 as int);
    lemma_octet_at_text(s, p2, a.o2 as int);
    lemma_octet_at_text(s, p3, a.o3 as int);
    assert(ipv4_after(s, 0) == Some((a, s.len() as int)));
}

/// Every `ip:port` text in canonical dotted-quad form resolves back to
/// exactly the socket address it was written from.
pub proof fn lemma_socket_v4_text_resolves(sa: SocketAddressV4)
    ensures
        parse_socket_v4(socket_v4_text(sa)) == Some(sa),
{
    let a = sa.ip;
    let t = ipv4_text(a);
    let tp = dec_text(sa.port as int);
    lemma_dec_text_props(sa.port as int);
    let lt = t.len() as int;
    let lp = tp.len() as int;
    let s = socket_v4_text(sa);
    assert(s.len() == lt + 1 + lp);
    assert(s.subrange(0, lt) =~= t);
    assert(s[lt] == ':');
    assert(s.subrange(lt + 1, lt + 1 + lp) =~= tp);

    let t0 = dec_text(a.o0 as int);
    let t1 = dec_text(a.o1 as int);
    let t2 = dec_text(a.o2 as int);
    let t3 = dec_text(a.o3 as int);
    lemma_dec_text_props(a.o0 as int);
    lemma_dec_text_props(a.o1 as int);
    lemma_dec_text_props(a.o2 as int);
    lemma_dec_text_props(a.o3 as int);
    let l0 = t0.len() as int;
    let l1 = t1.len() as int;
    let l2 = t2.len() as int;
    let l3 = t3.len() as int;
    let p1 = l0 + 1;
    let p2 = l0 + l1 + 2;
    let p3 = l0 + l1 + l2 + 3;
    assert(s.subrange(0, l0) =~= t0);
    assert(s[l0] == '.');
    assert(s.subrange(p1, p1 + l1) =~= t1);
    assert(s[p2 - 1] == '.');
    assert(s.subrange(p2, p2 + l2) =~= t2);
    assert(s[p3 - 1] == '.');
    assert(s.subrange(p3, p3 + l3) =~= t3);
    lemma_octet_at_text(s, 0, a.o0 as int);
    lemma_octet_at_text(s, p1, a.o1 as int);
    lemma_octet_at_text(s, p2, a.o2 as int);
    lemma_octet_at_text(s, p3, a.o3 as int);
    assert(ipv4_after(s, 0) == Some((a, lt)));
    lemma_port_at_text(s, lt + 1, sa.port as int);
    assert(port_after(s, lt + 1) == Some((sa.port as int, s.len() as int)));
}

/// The character of one hex digit, lower case.
pub open spec fn hex_char(d: int) -> char {
    if d < 10 {
        ((48 + d) as u8) as char
    } else {
        ((87 + d) as u8) as char
    }
}

/// The canonical hex text of `n`: lower case, no leading zeroes.
pub open spec fn hex_text(n: int) -> Seq<char>
    decreases n,
{
    if n < 16 {
        seq![hex_char(n)]
    } else {
        hex_text(n / 16).push(hex_char(n % 16))
    }
}

/// The eight hextets of an IPv6 address, most significant first.
pub open spec fn v6_groups(a: Ipv6Address) -> Seq<int> {
    seq![
        a.s0 as int,
        a.s1 as int,
        a.s2 as int,
        a.s3 as int,
        a.s4 as int,
        a.s5 as int,
        a.s6 as int,
        a.s7 as int,
    ]
}

/// Hextet texts joined by `:`.
pub open spec fn groups_text(g: Seq<int>) -> Seq<char>
    decreases g.len(),
{
    if g.len() == 0 {
        Seq::<char>::empty()
    } else if g.len() == 1 {
        hex_text(g[0])
    } else {
        hex_text(g[0]) + seq![':'] + groups_text(g.drop_first())
    }
}

/// The canonical full-form text of an IPv6 socket address with neither
/// scope nor compression: all eight hextets written out between brackets.
pub open spec fn socket_v6_text(a: Ipv6Address, port: u16) -> Seq<char> {
    seq!['['] + groups_text(v6_groups(a)) + seq![']', ':'] + dec_text(port as int)
}

/// The value of a whole hex text.
pub open spec fn hex_text_value(t: Seq<char>) -> int {
    hex_value(t, 0, t.len() as int)
}

proof fn lemma_hex_value_congruent(s: Seq<char>, t: Seq<char>, i: int, e: int)
    requires
        forall|k: int| i <= k < e ==> s[k] == t[k],
    ensures
        hex_value(s, i, e) == hex_value(t, i, e),
    decreases e - i,
{
    if i < e {
        lemma_hex_value_congruent(s, t, i, e - 1);
    }
}

proof fn lemma_hex_value_shift(s: Seq<char>, i: int, e: int)
    requires
        0 <= i <= e <= s.len(),
    ensures
        hex_value(s, i, e) == hex_text_value(s.subrange(i, e)),
    decreases e - i,
{
    if i < e {
        lemma_hex_value_shift(s, i, e - 1);
        let sub = s.subrange(i, e);
        let sub1 = s.subrange(i, e - 1);
        assert(sub[sub.len() - 1] == s[e - 1]);
        assert(forall|k: int| 0 <= k < sub1.len() ==> sub1[k] == sub[k]);
        lemma_hex_value_congruent(sub1, sub, 0, e - 1 - i);
        assert(hex_text_value(sub) == hex_value(sub, 0, e - i - 1) * 16 + hex_digit_value(
            s[e - 1],
        ));
    }
}

/// A run of hex digits closed off by a non-hex-digit (or the end) is
/// exactly the maximal run the grammar reads.
proof fn lemma_hex_run_end_is(s: Seq<char>, i: int, e: int)
    requires
        0 <= i <= e <= s.len(),
        forall|k: int| i <= k < e ==> is_hex_digit(#[trigger] s[k]),
        e == s.len() || !is_hex_digit(s[e]),
    ensures
        hex_run_end(s, i) == e,
    decreases e - i,
{
    if i < e {
        lemma_hex_run_end_is(s, i + 1, e);
    }
}

/// The canonical hex text: its length, digits and value.
proof fn lemma_hex_text_props(n: int)
    requires
        0 <= n,
    ensures
        1 <= hex_text(n).len(),
        n < 16 ==> hex_text(n).len() == 1,
        n < 256 ==> hex_text(n).len() <= 2,
        n < 4096 ==> hex_text(n).len() <= 3,
        n < 65536 ==> hex_text(n).len() <= 4,
        forall|k: int| 0 <= k < hex_text(n).len() ==> is_hex_digit(#[trigger] hex_text(n)[k]),
        hex_text_value(hex_text(n)) == n,
    decreases n,
{
    if n < 16 {
        let t = hex_text(n);
        if n < 10 {
            assert((48 + n) as u8 == 48 + n);
            assert((hex_char(n) as u32) == 48 + n);
        } else {
            assert((87 + n) as u8 == 87 + n);
            assert((hex_char(n) as u32) == 87 + n);
        }
        assert(t.len() == 1);
        assert(hex_value(t, 0, 1) == hex_value(t, 0, 0) * 16 + hex_digit_value(t[0]));
        assert(hex_text_value(t) == n);
    } else {
        lemma_hex_text_props(n / 16);
        let t = hex_text(n / 16);
        let c = hex_char(n % 16);
        if n % 16 < 10 {
            assert((48 + n % 16) as u8 == 48 + n % 16);
            assert((c as u32) == 48 + n % 16);
        } else {
            assert((87 + n % 16) as u8 == 87 + n % 16);
            assert((c as u32) == 87 + n % 16);
        }
        assert(hex_digit_value(c) == n % 16);
        let w = t.push(c);
        let l = t.len() as int;
        assert(forall|k: int| 0 <= k < l ==> w[k] == t[k]);
        lemma_hex_value_congruent(t, w, 0, l);
        assert(w[l] == c);
        assert(hex_value(w, 0, l + 1) == hex_value(w, 0, l) * 16 + hex_digit_value(w[l]));
        assert(hex_value(w, 0, l) == hex_text_value(t));
        assert(n / 16 * 16 + n % 16 == n);
        assert(hex_text_value(w) == n);
    }
}

/// The maximal run of decimal digits: its characterisation.
proof fn lemma_dec_run_end_props(s: Seq<char>, i: int)
    requires
        0 <= i <= s.len(),
    ensures
        i <= dec_run_end(s, i) <= s.len(),
        forall|k: int| i <= k < dec_run_end(s, i) ==> is_dec_digit(#[trigger] s[k]),
        dec_run_end(s, i) == s.len() || !is_dec_digit(s[dec_run_end(s, i)]),
    decreases s.len() - i,
{
    if i < s.len() && is_dec_digit(s[i]) {
        lemma_dec_run_end_props(s, i + 1);
    }
}

/// Inside a run of hex digits closed off by anything but a decimal digit
/// or a dot, no dotted-quad can start: the digit run ends on a character
/// that is never a dot.
proof fn lemma_hex_run_no_ipv4(s: Seq<char>, j: int, m: int)
    requires
        0 <= j <= m <= s.len(),
        forall|k: int| j <= k < m ==> is_hex_digit(#[trigger] s[k]),
        m == s.len() || (!is_dec_digit(s[m]) && s[m] != '.'),
    ensures
        ipv4_after(s, j) is None,
{
    lemma_dec_run_end_props(s, j);
    let e1 = dec_run_end(s, j);
    if e1 > m {
        assert(is_dec_digit(s[m]));
        assert(false);
    }
    if octet_after(s, j) is Some {
        if e1 < m {
            assert(is_hex_digit(s[e1]) && !is_dec_digit(s[e1]));
            assert(s[e1] != '.');
        }
    }
}

/// A canonical hextet text sitting at `i` and closed off by a non-hex
/// character (or the end) reads back as exactly that hextet.
proof fn lemma_hextet_at_text(s: Seq<char>, i: int, n: int)
    requires
        0 <= n < 65536,
        0 <= i,
        i + hex_text(n).len() <= s.len(),
        s.subrange(i, i + hex_text(n).len() as int) == hex_text(n),
        i + hex_text(n).len() == s.len() || !is_hex_digit(s[i + hex_text(n).len()]),
    ensures
        hextet_after(s, i) == Some((n, i + hex_text(n).len() as int)),
{
    lemma_hex_text_props(n);
    let t = hex_text(n);
    let l = t.len() as int;
    let e = i + l;
    assert(forall|k: int| i <= k < e ==> #[trigger] s[k] == t[k - i]) by {
        assert(forall|k: int| i <= k < e ==> s.subrange(i, e)[k - i] == #[trigger] s[k]);
    }
    assert(forall|k: int| i <= k < e ==> is_hex_digit(#[trigger] s[k]));
    lemma_hex_run_end_is(s, i, e);
    lemma_hex_value_shift(s, i, e);
    assert(hex_value(s, i, e) == hex_text_value(t));
}

/// Hextet texts joined by `:`, placed in a larger text and closed off by
/// a non-hex character, read back as exactly those groups: each fills one
/// slot, and no embedded dotted-quad gets in the way.
proof fn lemma_groups_text_parses(s: Seq<char>, i: int, g: Seq<int>, first: bool)
    requires
        1 <= g.len() <= 8,
        forall|k: int| 0 <= k < g.len() ==> 0 <= #[trigger] g[k] < 65536,
        0 <= i,
        !first ==> i < s.len() && s[i] == ':',
        (if first { i } else { i + 1 }) + groups_text(g).len() <= s.len(),
        s.subrange(
            (if first { i } else { i + 1 }),
            (if first { i } else { i + 1 }) + groups_text(g).len() as int,
        ) == groups_text(g),
        (if first { i } else { i + 1 }) + groups_text(g).len() == s.len() || !is_hex_digit(
            s[(if first { i } else { i + 1 }) + groups_text(g).len()],
        ),
    ensures
        groups_after(s, i, g.len() as int, first) == (
            g,
            (if first { i } else { i + 1 }) + groups_text(g).len() as int,
            false,
        ),
    decreases g.len(),
{
    let start = if first { i } else { i + 1 };
    let t = groups_text(g);
    let t0 = hex_text(g[0]);
    let l0 = t0.len() as int;
    lemma_hex_text_props(g[0]);
    if g.len() == 1 {
        assert(t == t0);
        lemma_hextet_at_text(s, start, g[0]);
        assert(groups_after(s, start + l0, 0, false) == (
            Seq::<int>::empty(),
            start + l0,
            false,
        ));
        assert(seq![g[0]] + Seq::<int>::empty() =~= g);
    } else {
        let rest = g.drop_first();
        assert(forall|k: int| 0 <= k < rest.len() ==> 0 <= #[trigger] rest[k] < 65536) by {
            assert(forall|k: int| 0 <= k < rest.len() ==> rest[k] == g[k + 1]);
        }
        assert(t == t0 + seq![':'] + groups_text(rest));
        let lr = groups_text(rest).len() as int;
        assert(t.len() == l0 + 1 + lr);
        assert(forall|k: int| start <= k < start + t.len() ==> #[trigger] s[k] == t[k - start])
            by {
            assert(forall|k: int|
                start <= k < start + t.len() ==> s.subrange(start, start + t.len() as int)[k
                    - start] == #[trigger] s[k]);
        }
        assert(s.subrange(start, start + l0) =~= t0);
        assert(s[start + l0] == ':');
        assert(s.subrange(start + l0 + 1, start + l0 + 1 + lr) =~= groups_text(rest));
        lemma_hextet_at_text(s, start, g[0]);
        lemma_hex_run_no_ipv4(s, start, start + l0);
        lemma_groups_text_parses(s, start + l0, rest, false);
        assert(seq![g[0]] + rest =~= g);
    }
}

/// Every IPv6 socket address written out in full — all eight hextets, no
/// compression, no scope — resolves back to exactly those hextets and
/// that port, with flow info and scope id zero.
pub proof fn lemma_socket_v6_text_resolves(a: Ipv6Address, port: u16)
    ensures
        parse_socket_v6(socket_v6_text(a, port)) == Some(
            SocketAddressV6 { ip: a, port, flowinfo: 0, scope_id: 0 },
        ),
{
    let g = v6_groups(a);
    let t = groups_text(g);
    let lt = t.len() as int;
    let tp = dec_text(port as int);
    lemma_dec_text_props(port as int);
    let s = socket_v6_text(a, port);
    assert(s.len() == 1 + lt + 2 + tp.len());
    assert(s[0] == '[');
    assert(s.subrange(1, 1 + lt) =~= t);
    assert(s[1 + lt] == ']');
    assert(s[2 + lt] == ':');
    assert(s.subrange(3 + lt, s.len() as int) =~= tp);
    assert(forall|k: int| 0 <= k < g.len() ==> 0 <= #[trigger] g[k] < 65536);
    lemma_groups_text_parses(s, 1, g, true);
    assert(groups_after(s, 1, 8, true) == (g, 1 + lt, false));
    assert(ipv6_after(s, 1) == Some((g, 1 + lt)));
    lemma_port_at_text(s, 3 + lt, port as int);
    assert(ipv6_from_groups(g) == a);
}

/// Every IPv6 address written out in full — all eight hextets, no
/// compression — is a whole V6 host text and parses back to exactly that
/// address, with scope id zero; its first character is a hex digit.
pub proof fn lemma_v6_host_text_parses(a: Ipv6Address)
    ensures
        parse_v6_host(groups_text(v6_groups(a))) == Some((a, 0int)),
        groups_text(v6_groups(a)).len() > 0,
        is_hex_digit(groups_text(v6_groups(a))[0]),
{
    let g = v6_groups(a);
    let h = groups_text(g);
    assert(forall|k: int| 0 <= k < g.len() ==> 0 <= #[trigger] g[k] < 65536);
    assert(h.subrange(0, h.len() as int) =~= h);
    lemma_groups_text_parses(h, 0, g, true);
    assert(ipv6_after(h, 0) == Some((g, h.len() as int)));
    assert(ipv6_from_groups(g) == a);
    lemma_hex_text_props(g[0]);
    assert(h[0] == hex_text(g[0])[0]);
}

/// Parses a whole IPv4 address literal.
pub fn parse_ipv4_text(s: &str) -> (r: Option<Ipv4Address>)
    ensures
        r == parse_ipv4(s@),
{
    let len = s.unicode_len();
    match ipv4_x(s, len, 0) {
        Some((a, e)) => if e == len {
            Some(a)
        } else {
            None
        },
        None => None,
    }
}

/// Parses a whole IPv6 host text: an IPv6 literal with an optional
/// `%scope` suffix, as it may stand between the brackets of a socket
/// address.
pub fn parse_v6_host_text(s: &str) -> (r: Option<(Ipv6Address, u32)>)
    ensures
        match r {
            Some((a, sc)) => parse_v6_host(s@) == Some((a, sc as int)),
            None => parse_v6_host(s@) is None,
        },
{
    let len = s.unicode_len();
    match ipv6_x(s, len, 0) {
        None => None,
        Some((a, e)) => match scope_x(s, len, e) {
            None => None,
            Some((sc, e2)) => if e2 == len {
                Some((a, sc))
            } else {
                None
            },
        },
    }
}

/// Parses a whole IPv4 socket-address literal, such as `192.168.0.1:80`.
pub fn parse_socket_v4_text(s: &str) -> (r: Option<SocketAddressV4>)
    ensures
        r == parse_socket_v4(s@),
{
    let len = s.unicode_len();
    match ipv4_x(s, len, 0) {
        None => None,
        Some((a, e)) => if e < len && s.get_char(e) == ':' {
            match port_x(s, len, e + 1) {
                None => None,
                Some((p, e2)) => if e2 == len {
                    Some(SocketAddressV4 { ip: a, port: p })
                } else {
                    None
                },
            }
        } else {
            None
        },
    }
}

/// Parses a whole IPv6 socket-address literal, such as
/// `[2001:db8::1%3]:80`.
pub fn parse_socket_v6_text(s: &str) -> (r: Option<SocketAddressV6>)
    ensures
        r == parse_socket_v6(s@),
{
    let len = s.unicode_len();
    if len > 0 && s.get_char(0) == '[' {
        match ipv6_x(s, len, 1) {
            None => None,
            Some((a, e)) => match scope_x(s, len, e) {
                None => None,
                Some((sc, e2)) => if e2 < len && e2 + 1 < len && s.get_char(e2) == ']'
                    && s.get_char(e2 + 1) == ':' {
                    match port_x(s, len, e2 + 2) {
                        None => None,
                        Some((p, e3)) => if e3 == len {
                            Some(SocketAddressV6 { ip: a, port: p, flowinfo: 0, scope_id: sc })
                        } else {
                            None
                        },
                    }
                } else {
                    None
                },
            },
        }
    } else {
        None
    }
}

/// Parses a whole socket-address literal of either family.
pub fn parse_socket_addr_text(s: &str) -> (r: Option<SocketAddress>)
    ensures
        r == parse_socket_addr(s@),
{
    match parse_socket_v4_text(s) {
        Some(a) => Some(SocketAddress::V4(a)),
        None => match parse_socket_v6_text(s) {
            Some(a) => Some(SocketAddress::V6(a)),
            None => None,
        },
    }
}

} // verus!
