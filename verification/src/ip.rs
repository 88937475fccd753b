//! IP addresses as plain values: parsing of dotted-quad IPv4 and
//! colon-grouped IPv6 literals, and their textual rendering.
//!
//! IPv6 literals are read with at most one `::` and one to four hex digits
//! per group; the embedded-IPv4 tail form and zone suffixes are not read.
//! Rendering writes IPv4 in dotted decimal and IPv6 as eight lower-case hex
//! groups without `::` compression.

use vstd::prelude::*;
use crate::textutil::{
    spec_find, find_char_at, is_digit, digit_val, spec_all_digits, spec_dec_chars, dec_chars_u64,
    lemma_dec_chars_ascii, string_from_ascii_chars, lemma_find_char,
};
use vstd::utf8::is_ascii_chars;
use vstd::string::StringExecFns;

verus! {

/// An address, IPv4 or IPv6, as its numeric value.
#[derive(Clone, Copy, PartialEq, Eq, Structural, Debug)]
pub enum IpAddress {
    V4(u32),
    V6(u128),
}

impl IpAddress {
    pub open spec fn spec_is_v4(self) -> bool {
        self is V4
    }

    pub fn is_v4(&self) -> (r: bool)
        ensures
            r == self.spec_is_v4(),
    {
        match self {
            IpAddress::V4(_) => true,
            IpAddress::V6(_) => false,
        }
    }
}

/// A set of IP families.
#[derive(Clone, Copy, PartialEq, Eq, Structural, Debug)]
pub struct IpVersion {
    pub v4: bool,
    pub v6: bool,
}

impl IpVersion {
    pub fn is_empty(&self) -> (r: bool)
        ensures
            r == (!self.v4 && !self.v6),
    {
        !self.v4 && !self.v6
    }
}

/// Only IPv4.
pub fn ip_v4() -> (r: IpVersion)
    ensures
        r == (IpVersion { v4: true, v6: false }),
{
    IpVersion { v4: true, v6: false }
}

/// Only IPv6.
pub fn ip_v6() -> (r: IpVersion)
    ensures
        r == (IpVersion { v4: false, v6: true }),
{
    IpVersion { v4: false, v6: true }
}

/// Which families are used, and which one is preferred.
#[derive(Clone, Copy, PartialEq, Eq, Structural, Debug)]
pub struct IpConfig {
    pub default_version: IpVersion,
    pub supported_versions: IpVersion,
}

/// One decimal octet: one to three digits, no leading zero, at most 255.
pub open spec fn spec_octet(s: Seq<char>) -> Option<int> {
    if 1 <= s.len() <= 3 && spec_all_digits(s) && !(s.len() > 1 && s[0] == '0') {
        let v = if s.len() == 1 {
            digit_val(s[0])
        } else if s.len() == 2 {
            digit_val(s[0]) * 10 + digit_val(s[1])
        } else {
            digit_val(s[0]) * 100 + digit_val(s[1]) * 10 + digit_val(s[2])
        };
        if v <= 255 {
            Some(v)
        } else {
            None
        }
    } else {
        None
    }
}

/// A dotted-quad IPv4 literal.
pub open spec fn spec_parse_ipv4(s: Seq<char>) -> Option<u32> {
    let p1 = spec_find(s, 0, '.');
    let p2 = spec_find(s, p1 + 1, '.');
    let p3 = spec_find(s, p2 + 1, '.');
    let p4 = spec_find(s, p3 + 1, '.');
    if p1 < s.len() && p2 < s.len() && p3 < s.len() && p4 == s.len() {
        match (
            spec_octet(s.subrange(0, p1)),
            spec_octet(s.subrange(p1 + 1, p2)),
            spec_octet(s.subrange(p2 + 1, p3)),
            spec_octet(s.subrange(p3 + 1, s.len() as int)),
        ) {
            (Some(a), Some(b), Some(c), Some(d)) => Some(
                (a * 0x100_0000 + b * 0x1_0000 + c * 0x100 + d) as u32,
            ),
            _ => None,
        }
    } else {
        None
    }
}

pub open spec fn is_hex(c: char) -> bool {
    is_digit(c) || ('a' <= c <= 'f') || ('A' <= c <= 'F')
}

pub open spec fn hex_val(c: char) -> int {
    if is_digit(c) {
        digit_val(c)
    } else if 'a' <= c <= 'f' {
        c as int - 87
    } else {
        c as int - 55
    }
}

/// One to four hex digits.
pub open spec fn spec_hexgroup(s: Seq<char>) -> Option<int> {
    if 1 <= s.len() <= 4 && (forall|i: int| 0 <= i < s.len() ==> is_hex(#[trigger] s[i])) {
        Some(
            if s.len() == 1 {
                hex_val(s[0])
            } else if s.len() == 2 {
                hex_val(s[0]) * 16 + hex_val(s[1])
            } else if s.len() == 3 {
                hex_val(s[0]) * 256 + hex_val(s[1]) * 16 + hex_val(s[2])
            } else {
                hex_val(s[0]) * 4096 + hex_val(s[1]) * 256 + hex_val(s[2]) * 16 + hex_val(s[3])
            },
        )
    } else {
        None
    }
}

/// Colon-separated hex groups, none empty, from `from` on.
pub open spec fn spec_groups(s: Seq<char>, from: int) -> Option<Seq<int>>
    decreases s.len() - from,
{
    if from < 0 {
        spec_groups(s, 0)
    } else {
        let p = spec_find(s, from, ':');
        let p2 = if p < from {
            from
        } else if p > s.len() {
            s.len() as int
        } else {
            p
        };
        match spec_hexgroup(s.subrange(from, p2)) {
            Option::None => None,
            Option::Some(g) => {
                if p2 >= s.len() {
                    Some(seq![g])
                } else {
                    match spec_groups(s, p2 + 1) {
                        Option::None => None,
                        Option::Some(t) => Some(seq![g] + t),
                    }
                }
            },
        }
    }
}

/// Value of hex groups, first group most significant.
pub open spec fn spec_groups_val(gs: Seq<int>) -> int
    decreases gs.len(),
{
    if gs.len() == 0 {
        0
    } else {
        spec_groups_val(gs.drop_last()) * 0x1_0000 + gs.last()
    }
}

/// First position of `"::"` at or after `from`, else the length.
pub open spec fn spec_find_dc(s: Seq<char>, from: int) -> int
    decreases s.len() - from,
{
    if from < 0 {
        spec_find_dc(s, 0)
    } else if from + 1 >= s.len() {
        s.len() as int
    } else if s[from] == ':' && s[from + 1] == ':' {
        from
    } else {
        spec_find_dc(s, from + 1)
    }
}

/// An IPv6 literal: hex groups split on `':'`, with at most one `"::"`
/// standing for the missing zero groups.
pub open spec fn spec_parse_ipv6(s: Seq<char>) -> Option<u128> {
    let dc = spec_find_dc(s, 0);
    if dc >= s.len() {
        match spec_groups(s, 0) {
            Option::None => None,
            Option::Some(gs) => {
                if gs.len() == 8 {
                    Some(spec_groups_val(gs) as u128)
                } else {
                    None
                }
            },
        }
    } else {
        let left = s.take(dc);
        let right = s.skip(dc + 2);
        let lg = if left.len() == 0 {
            Some(Seq::<int>::empty())
        } else {
            spec_groups(left, 0)
        };
        let rg = if right.len() == 0 {
            Some(Seq::<int>::empty())
        } else {
            spec_groups(right, 0)
        };
        match (lg, rg) {
            (Some(a), Some(b)) => {
                if a.len() <= 7 && b.len() <= 7 - a.len() {
                    let zeros = Seq::new((8 - a.len() - b.len()) as nat, |i: int| 0int);
                    Some(spec_groups_val(a + zeros + b) as u128)
                } else {
                    None
                }
            },
            _ => None,
        }
    }
}

/// How a query string is read as an address: IPv4 first, then IPv6.
pub open spec fn spec_parse_ip(s: Seq<char>) -> Option<IpAddress> {
    match spec_parse_ipv4(s) {
        Option::Some(v) => Some(IpAddress::V4(v)),
        Option::None => match spec_parse_ipv6(s) {
            Option::Some(v) => Some(IpAddress::V6(v)),
            Option::None => None,
        },
    }
}

/// Whether `c` is a decimal digit.
fn is_digit_exec(c: char) -> (r: bool)
    ensures
        r == is_digit(c),
{
    c >= '0' && c <= '9'
}

/// Reads one decimal octet out of `chars[from..to]`.
fn parse_octet(chars: &Vec<char>, from: usize, to: usize) -> (r: Option<u32>)
    requires
        from <= to <= chars@.len(),
    ensures
        match r {
            Some(v) => spec_octet(chars@.subrange(from as int, to as int)) == Some(v as int),
            None => spec_octet(chars@.subrange(from as int, to as int)) is None,
        },
{
    let ghost part = chars@.subrange(from as int, to as int);
    let len: usize = to - from;
    if len < 1 || len > 3 {
        return None;
    }
    let mut i: usize = 0;
    while i < len
        invariant
            i <= len,
            from + len <= chars@.len(),
            part == chars@.subrange(from as int, to as int),
            len == to - from,
            forall|m: int| 0 <= m < i ==> is_digit(#[trigger] part[m]),
        decreases len - i,
    {
        if !is_digit_exec(chars[from + i]) {
            proof {
                assert(part[i as int] == chars@[from + i]);
                assert(!spec_all_digits(part));
            }
            return None;
        }
        proof {
            assert(part[i as int] == chars@[from + i]);
        }
        i = i + 1;
    }
    proof {
        assert(spec_all_digits(part));
    }
    if len > 1 && chars[from] == '0' {
        proof {
            assert(part[0] == chars@[from as int]);
        }
        return None;
    }
    let v: u32 = if len == 1 {
        (chars[from] as u32) - 48
    } else if len == 2 {
        ((chars[from] as u32) - 48) * 10 + ((chars[from + 1] as u32) - 48)
    } else {
        ((chars[from] as u32) - 48) * 100 + ((chars[from + 1] as u32) - 48) * 10 + ((chars[from
            + 2] as u32) - 48)
    };
    proof {
        assert(part[0] == chars@[from as int]);
        if len >= 2 {
            assert(part[1] == chars@[from + 1]);
        }
        if len >= 3 {
            assert(part[2] == chars@[from + 2]);
        }
    }
    if v > 255 {
        return None;
    }
    Some(v)
}

/// Reads a dotted-quad IPv4 literal.
pub fn parse_ipv4(s: &str) -> (r: Option<u32>)
    ensures
        r == spec_parse_ipv4(s@),
{
    let chars = crate::textutil::str_chars(s);
    let n: usize = chars.len();
    let p1 = find_char_at(&chars, 0, '.');
    if p1 >= n {
        return None;
    }
    let p2 = find_char_at(&chars, p1 + 1, '.');
    if p2 >= n {
        return None;
    }
    let p3 = find_char_at(&chars, p2 + 1, '.');
    if p3 >= n {
        return None;
    }
    let p4 = find_char_at(&chars, p3 + 1, '.');
    if p4 < n {
        return None;
    }
    let a = parse_octet(&chars, 0, p1);
    let b = parse_octet(&chars, p1 + 1, p2);
    let c = parse_octet(&chars, p2 + 1, p3);
    let d = parse_octet(&chars, p3 + 1, n);
    match (a, b, c, d) {
        (Some(a), Some(b), Some(c), Some(d)) => Some(
            a * 0x100_0000 + b * 0x1_0000 + c * 0x100 + d,
        ),
        _ => None,
    }
}

/// Whether `c` is a hex digit.
fn is_hex_exec(c: char) -> (r: bool)
    ensures
        r == is_hex(c),
{
    (c >= '0' && c <= '9') || (c >= 'a' && c <= 'f') || (c >= 'A' && c <= 'F')
}

/// Value of one hex digit.
fn hex_val_exec(c: char) -> (r: u32)
    requires
        is_hex(c),
    ensures
        r == hex_val(c),
        r < 16,
{
    if c >= '0' && c <= '9' {
        (c as u32) - 48
    } else if c >= 'a' && c <= 'f' {
        (c as u32) - 87
    } else {
        (c as u32) - 55
    }
}

/// Reads one hex group out of `chars[from..to]`.
fn parse_hexgroup(chars: &Vec<char>, from: usize, to: usize) -> (r: Option<u16>)
    requires
        from <= to <= chars@.len(),
    ensures
        match r {
            Some(v) => spec_hexgroup(chars@.subrange(from as int, to as int)) == Some(v as int),
            None => spec_hexgroup(chars@.subrange(from as int, to as int)) is None,
        },
{
    let ghost part = chars@.subrange(from as int, to as int);
    let len: usize = to - from;
    if len < 1 || len > 4 {
        return None;
    }
    let mut i: usize = 0;
    while i < len
        invariant
            i <= len,
            from + len <= chars@.len(),
            part == chars@.subrange(from as int, to as int),
            len == to - from,
            1 <= len <= 4,
            forall|m: int| 0 <= m < i ==> is_hex(#[trigger] part[m]),
        decreases len - i,
    {
        let c = chars[from + i];
        proof {
            assert(part[i as int] == chars@[from + i]);
        }
        if !is_hex_exec(c) {
            proof {
                assert(!is_hex(part[i as int]));
            }
            return None;
        }
        i = i + 1;
    }
    proof {
        assert(part[0] == chars@[from as int]);
        if len >= 2 {
            assert(part[1] == chars@[from + 1]);
        }
        if len >= 3 {
            assert(part[2] == chars@[from + 2]);
        }
        if len >= 4 {
            assert(part[3] == chars@[from + 3]);
        }
    }
    let v: u32 = if len == 1 {
        hex_val_exec(chars[from])
    } else if len == 2 {
        hex_val_exec(chars[from]) * 16 + hex_val_exec(chars[from + 1])
    } else if len == 3 {
        hex_val_exec(chars[from]) * 256 + hex_val_exec(chars[from + 1]) * 16 + hex_val_exec(
            chars[from + 2],
        )
    } else {
        hex_val_exec(chars[from]) * 4096 + hex_val_exec(chars[from + 1]) * 256 + hex_val_exec(
            chars[from + 2],
        ) * 16 + hex_val_exec(chars[from + 3])
    };
    Some(v as u16)
}

/// Copies `chars[from..to]`.
fn chars_slice(chars: &Vec<char>, from: usize, to: usize) -> (r: Vec<char>)
    requires
        from <= to <= chars@.len(),
    ensures
        r@ =~= chars@.subrange(from as int, to as int),
{
    let mut r: Vec<char> = Vec::new();
    let mut i: usize = from;
    while i < to
        invariant
            from <= i <= to <= chars@.len(),
            r@ =~= chars@.subrange(from as int, i as int),
        decreases to - i,
    {
        proof {
            assert(chars@.subrange(from as int, i + 1) =~= chars@.subrange(
                from as int,
                i as int,
            ).push(chars@[i as int]));
        }
        r.push(chars[i]);
        i = i + 1;
    }
    r
}

/// The integer views of a group vector.
pub open spec fn groups_view(v: Seq<u16>) -> Seq<int> {
    v.map_values(|g: u16| g as int)
}

/// Reads the colon-separated groups from `from` to the end.
fn parse_groups(chars: &Vec<char>, from: usize) -> (r: Option<Vec<u16>>)
    requires
        from <= chars@.len(),
    ensures
        match r {
            Some(v) => spec_groups(chars@, from as int) == Some(groups_view(v@)),
            None => spec_groups(chars@, from as int) is None,
        },
    decreases chars@.len() - from,
{
    let n: usize = chars.len();
    let p = find_char_at(chars, from, ':');
    match parse_hexgroup(chars, from, p) {
        None => None,
        Some(g) => {
            if p >= n {
                let mut v: Vec<u16> = Vec::new();
                v.push(g);
                proof {
                    assert(groups_view(v@) =~= seq![g as int]);
                }
                Some(v)
            } else {
                proof {
                    assert(chars@.subrange(from as int, p as int).len() >= 1);
                }
                match parse_groups(chars, p + 1) {
                    None => None,
                    Some(mut t) => {
                        t.insert(0, g);
                        proof {
                            match spec_groups(chars@, p + 1) {
                                Option::Some(ts) => {
                                    assert(groups_view(t@) =~= seq![g as int] + ts);
                                },
                                Option::None => {},
                            }
                        }
                        Some(t)
                    },
                }
            }
        },
    }
}

/// Group values stay below 256^(2 len).
pub proof fn lemma_groups_val_bound(gs: Seq<int>)
    requires
        forall|i: int| 0 <= i < gs.len() ==> 0 <= #[trigger] gs[i] < 0x1_0000,
    ensures
        0 <= spec_groups_val(gs) < crate::codec::pow256(2 * gs.len()),
    decreases gs.len(),
{
    crate::codec::lemma_pow256_pos(2 * gs.len());
    if gs.len() > 0 {
        assert forall|i: int| 0 <= i < gs.drop_last().len() implies 0 <= #[trigger] gs.drop_last()[i]
            < 0x1_0000 by {
            assert(gs.drop_last()[i] == gs[i]);
        }
        lemma_groups_val_bound(gs.drop_last());
        let p = crate::codec::pow256((2 * gs.len() - 2) as nat);
        assert(crate::codec::pow256(2 * gs.len()) == 256 * crate::codec::pow256(
            (2 * gs.len() - 1) as nat,
        ));
        assert(crate::codec::pow256((2 * gs.len() - 1) as nat) == 256 * p);
        assert(spec_groups_val(gs.drop_last()) * 0x1_0000 + gs.last() < p * 0x1_0000
            && spec_groups_val(gs.drop_last()) * 0x1_0000 >= 0) by (nonlinear_arith)
            requires
                0 <= spec_groups_val(gs.drop_last()) < p,
                0 <= gs.last() < 0x1_0000,
        ;
        assert(p * 0x1_0000 == 256 * (256 * p)) by (nonlinear_arith);
    }
}

/// Assembles group values, first group most significant.
fn groups_value(gs: &Vec<u16>) -> (r: u128)
    requires
        gs@.len() <= 8,
    ensures
        r == spec_groups_val(groups_view(gs@)),
{
    let ghost all = groups_view(gs@);
    let mut acc: u128 = 0;
    let mut i: usize = 0;
    proof {
        assert(all.take(0) =~= Seq::<int>::empty());
        assert forall|m: int| 0 <= m < all.len() implies 0 <= #[trigger] all[m] < 0x1_0000 by {}
    }
    while i < gs.len()
        invariant
            i <= gs@.len() <= 8,
            all == groups_view(gs@),
            acc == spec_groups_val(all.take(i as int)),
            forall|m: int| 0 <= m < all.len() ==> 0 <= #[trigger] all[m] < 0x1_0000,
        decreases gs@.len() - i,
    {
        proof {
            assert(all.take(i + 1).drop_last() =~= all.take(i as int));
            assert(all.take(i + 1).last() == all[i as int]);
            assert forall|m: int| 0 <= m < all.take(i as int).len() implies 0 <= #[trigger] all.take(
                i as int,
            )[m] < 0x1_0000 by {
                assert(all.take(i as int)[m] == all[m]);
            }
            lemma_groups_val_bound(all.take(i as int));
            crate::codec::lemma_pow256_le(2 * i as nat, 14);
            crate::codec::lemma_pow256_steps();
            assert(acc * 0x1_0000 + all[i as int] <= 0x1_0000_0000_0000_0000_0000_0000_0000
                * 0x1_0000 - 1) by (nonlinear_arith)
                requires
                    0 <= acc < 0x1_0000_0000_0000_0000_0000_0000_0000,
                    0 <= all[i as int] < 0x1_0000,
            ;
        }
        acc = acc * 0x1_0000 + (gs[i] as u128);
        i = i + 1;
    }
    proof {
        assert(all.take(gs@.len() as int) =~= all);
    }
    acc
}

/// First `"::"` position at or after `from`.
fn find_dc_at(chars: &Vec<char>, from: usize) -> (r: usize)
    requires
        from <= chars@.len(),
    ensures
        r == spec_find_dc(chars@, from as int),
        from <= r <= chars@.len(),
        r < chars@.len() ==> r + 1 < chars@.len() && chars@[r as int] == ':' && chars@[r + 1]
            == ':',
{
    let n: usize = chars.len();
    let mut i: usize = from;
    while n > 0 && i < n - 1
        invariant
            from <= i <= n,
            n == chars@.len(),
            forall|m: int|
                from <= m < i ==> !(#[trigger] chars@[m] == ':' && m + 1 < n && chars@[m + 1]
                    == ':'),
        decreases n - i,
    {
        if chars[i] == ':' && chars[i + 1] == ':' {
            proof {
                lemma_find_dc(chars@, from as int, i as int);
            }
            return i;
        }
        i = i + 1;
    }
    proof {
        lemma_find_dc(chars@, from as int, n as int);
    }
    n
}

/// Bounds characterize `spec_find_dc`.
pub proof fn lemma_find_dc(s: Seq<char>, from: int, r: int)
    requires
        0 <= from <= r <= s.len(),
        forall|m: int|
            from <= m < r ==> !(#[trigger] s[m] == ':' && m + 1 < s.len() && s[m + 1] == ':'),
        r < s.len() ==> r + 1 < s.len() && s[r] == ':' && s[r + 1] == ':',
    ensures
        spec_find_dc(s, from) == r,
    decreases r - from,
{
    if from < r {
        lemma_find_dc(s, from + 1, r);
    } else if r == s.len() {
    }
}

/// Reads an IPv6 literal.
pub fn parse_ipv6(s: &str) -> (r: Option<u128>)
    ensures
        r == spec_parse_ipv6(s@),
{
    let chars = crate::textutil::str_chars(s);
    let n: usize = chars.len();
    let dc = find_dc_at(&chars, 0);
    if dc >= n {
        match parse_groups(&chars, 0) {
            None => None,
            Some(gs) => {
                if gs.len() == 8 {
                    Some(groups_value(&gs))
                } else {
                    None
                }
            },
        }
    } else {
        let leftv = chars_slice(&chars, 0, dc);
        let rightv = chars_slice(&chars, dc + 2, n);
        proof {
            assert(leftv@ =~= s@.take(dc as int));
            assert(rightv@ =~= s@.skip(dc + 2));
        }
        let lgs: Option<Vec<u16>> = if dc == 0 {
            Some(Vec::new())
        } else {
            parse_groups(&leftv, 0)
        };
        let rgs: Option<Vec<u16>> = if rightv.len() == 0 {
            Some(Vec::new())
        } else {
            parse_groups(&rightv, 0)
        };
        proof {
            assert(leftv@.subrange(0, leftv@.len() as int) =~= leftv@);
            assert(rightv@.subrange(0, rightv@.len() as int) =~= rightv@);
        }
        match (lgs, rgs) {
            (Some(a), Some(b)) => {
                if a.len() <= 7 && b.len() <= 7 - a.len() {
                    let mut all: Vec<u16> = Vec::new();
                    let mut i: usize = 0;
                    while i < a.len()
                        invariant
                            i <= a@.len(),
                            all@ =~= a@.subrange(0, i as int),
                        decreases a@.len() - i,
                    {
                        proof {
                            assert(a@.subrange(0, i + 1) =~= a@.subrange(0, i as int).push(
                                a@[i as int],
                            ));
                        }
                        all.push(a[i]);
                        i = i + 1;
                    }
                    let zero_count: usize = 8 - a.len() - b.len();
                    let mut z: usize = 0;
                    while z < zero_count
                        invariant
                            z <= zero_count,
                            all@ =~= a@ + Seq::new(z as nat, |m: int| 0u16),
                        decreases zero_count - z,
                    {
                        proof {
                            assert(a@ + Seq::new((z + 1) as nat, |m: int| 0u16) =~= (a@ + Seq::new(
                                z as nat,
                                |m: int| 0u16,
                            )).push(0u16));
                            assert(a@.subrange(0, a@.len() as int) =~= a@);
                        }
                        all.push(0u16);
                        z = z + 1;
                    }
                    let mut j: usize = 0;
                    while j < b.len()
                        invariant
                            j <= b@.len(),
                            all@ =~= a@ + Seq::new((8 - a@.len() - b@.len()) as nat, |m: int| 0u16)
                                + b@.subrange(0, j as int),
                            a@.len() + b@.len() <= 7,
                            zero_count == 8 - a@.len() - b@.len(),
                        decreases b@.len() - j,
                    {
                        proof {
                            assert(b@.subrange(0, j + 1) =~= b@.subrange(0, j as int).push(
                                b@[j as int],
                            ));
                            assert((a@ + Seq::new((8 - a@.len() - b@.len()) as nat, |m: int| 0u16)
                                + b@.subrange(0, j + 1)) =~= (a@ + Seq::new(
                                (8 - a@.len() - b@.len()) as nat,
                                |m: int| 0u16,
                            ) + b@.subrange(0, j as int)).push(b@[j as int]));
                        }
                        all.push(b[j]);
                        j = j + 1;
                    }
                    proof {
                        assert(b@.subrange(0, b@.len() as int) =~= b@);
                        let zeros = Seq::new((8 - a@.len() - b@.len()) as nat, |m: int| 0int);
                        assert(groups_view(all@) =~= groups_view(a@) + zeros + groups_view(b@));
                    }
                    Some(groups_value(&all))
                } else {
                    None
                }
            },
            _ => None,
        }
    }
}

/// Reads an address the way the query classifier does: IPv4, then IPv6.
pub fn parse_ip(s: &str) -> (r: Option<IpAddress>)
    ensures
        r == spec_parse_ip(s@),
{
    match parse_ipv4(s) {
        Some(v) => Some(IpAddress::V4(v)),
        None => match parse_ipv6(s) {
            Some(v) => Some(IpAddress::V6(v)),
            None => None,
        },
    }
}

/// The dotted-decimal rendering of an IPv4 value.
pub open spec fn spec_render_ipv4(v: int) -> Seq<char> {
    spec_dec_chars(((v / 0x100_0000) % 256) as nat) + seq!['.'] + spec_dec_chars(
        ((v / 0x1_0000) % 256) as nat,
    ) + seq!['.'] + spec_dec_chars(((v / 256) % 256) as nat) + seq!['.'] + spec_dec_chars(
        (v % 256) as nat,
    )
}

/// The hex digits of `n`, lower case, most significant first.
pub open spec fn spec_hex_chars(n: nat) -> Seq<char>
    decreases n,
{
    if n < 16 {
        seq![hex_digit_char(n as int)]
    } else {
        spec_hex_chars(n / 16).push(hex_digit_char((n % 16) as int))
    }
}

pub open spec fn hex_digit_char(d: int) -> char {
    if d < 10 {
        ((48 + d) as u8) as char
    } else {
        ((87 + d) as u8) as char
    }
}

/// The rendering of an IPv6 value: eight lower-case hex groups.
pub open spec fn spec_render_ipv6(v: int) -> Seq<char> {
    spec_hex_chars(((v / 0x1_0000_0000_0000_0000_0000_0000_0000) % 0x1_0000) as nat) + seq![':']
        + spec_hex_chars(((v / 0x1_0000_0000_0000_0000_0000_0000) % 0x1_0000) as nat) + seq![':']
        + spec_hex_chars(((v / 0x1_0000_0000_0000_0000_0000) % 0x1_0000) as nat) + seq![':']
        + spec_hex_chars(((v / 0x1_0000_0000_0000_0000) % 0x1_0000) as nat) + seq![':']
        + spec_hex_chars(((v / 0x1_0000_0000_0000) % 0x1_0000) as nat) + seq![':']
        + spec_hex_chars(((v / 0x1_0000_0000) % 0x1_0000) as nat) + seq![':'] + spec_hex_chars(
        ((v / 0x1_0000) % 0x1_0000) as nat,
    ) + seq![':'] + spec_hex_chars((v % 0x1_0000) as nat)
}

/// What an address renders as.
pub open spec fn spec_render_ip(a: IpAddress) -> Seq<char> {
    match a {
        IpAddress::V4(v) => spec_render_ipv4(v as int),
        IpAddress::V6(v) => spec_render_ipv6(v as int),
    }
}

/// Hex digits are ASCII.
pub proof fn lemma_hex_chars_ascii(n: nat)
    ensures
        is_ascii_chars(spec_hex_chars(n)),
        spec_hex_chars(n).len() >= 1,
    decreases n,
{
    if n < 16 {
    } else {
        lemma_hex_chars_ascii(n / 16);
        let s = spec_hex_chars(n);
        assert forall|i: int| 0 <= i < s.len() implies '\0' <= #[trigger] s[i] <= '\u{7f}' by {
            if i < s.len() - 1 {
                assert(s[i] == spec_hex_chars(n / 16)[i]);
            } else {
                vstd::arithmetic::div_mod::lemma_mod_division_less_than_divisor(n as int, 16);
            }
        }
    }
}

/// Writes `n` in lower-case hex.
fn hex_chars_u32(n: u32) -> (r: Vec<char>)
    ensures
        r@ == spec_hex_chars(n as nat),
    decreases n,
{
    proof {
        vstd::arithmetic::div_mod::lemma_mod_division_less_than_divisor(n as int, 16);
    }
    if n < 16 {
        let c: char = if n < 10 {
            (48 + n as u8) as char
        } else {
            (87 + n as u8) as char
        };
        let mut r: Vec<char> = Vec::new();
        r.push(c);
        proof {
            assert(r@ =~= spec_hex_chars(n as nat));
        }
        r
    } else {
        proof {
            vstd::arithmetic::div_mod::lemma_div_is_strictly_smaller(n as int, 16);
            vstd::arithmetic::div_mod::lemma_div_pos_is_pos(n as int, 16);
        }
        let mut r = hex_chars_u32(n / 16);
        let d: u32 = n % 16;
        let c: char = if d < 10 {
            (48 + d as u8) as char
        } else {
            (87 + d as u8) as char
        };
        r.push(c);
        proof {
            assert(r@ =~= spec_hex_chars(n as nat));
        }
        r
    }
}

/// Renders an address as text.
pub fn render_ip(a: &IpAddress) -> (r: String)
    ensures
        r@ == spec_render_ip(*a),
{
    proof {
        reveal_strlit(".");
        reveal_strlit(":");
        assert("."@ =~= seq!['.']);
        assert(":"@ =~= seq![':']);
    }
    match a {
        IpAddress::V4(v) => {
            let v: u32 = *v;
            let p1 = dec_chars_u64(((v / 0x100_0000) % 256) as u64);
            let p2 = dec_chars_u64(((v / 0x1_0000) % 256) as u64);
            let p3 = dec_chars_u64(((v / 256) % 256) as u64);
            let p4 = dec_chars_u64((v % 256) as u64);
            proof {
                lemma_dec_chars_ascii(((v / 0x100_0000) % 256) as nat);
                lemma_dec_chars_ascii(((v / 0x1_0000) % 256) as nat);
                lemma_dec_chars_ascii(((v / 256) % 256) as nat);
                lemma_dec_chars_ascii((v % 256) as nat);
            }
            let mut s = string_from_ascii_chars(&p1);
            s.append(".");
            let s2 = string_from_ascii_chars(&p2);
            s.append(s2.as_str());
            s.append(".");
            let s3 = string_from_ascii_chars(&p3);
            s.append(s3.as_str());
            s.append(".");
            let s4 = string_from_ascii_chars(&p4);
            s.append(s4.as_str());
            proof {
                assert(s@ =~= spec_render_ipv4(v as int));
            }
            s
        },
        IpAddress::V6(v) => {
            let v: u128 = *v;
            let g0 = hex_chars_u32(((v / 0x1_0000_0000_0000_0000_0000_0000_0000) % 0x1_0000) as u32);
            let g1 = hex_chars_u32(((v / 0x1_0000_0000_0000_0000_0000_0000) % 0x1_0000) as u32);
            let g2 = hex_chars_u32(((v / 0x1_0000_0000_0000_0000_0000) % 0x1_0000) as u32);
            let g3 = hex_chars_u32(((v / 0x1_0000_0000_0000_0000) % 0x1_0000) as u32);
            let g4 = hex_chars_u32(((v / 0x1_0000_0000_0000) % 0x1_0000) as u32);
            let g5 = hex_chars_u32(((v / 0x1_0000_0000) % 0x1_0000) as u32);
            let g6 = hex_chars_u32(((v / 0x1_0000) % 0x1_0000) as u32);
            let g7 = hex_chars_u32((v % 0x1_0000) as u32);
            proof {
                lemma_hex_chars_ascii(((v / 0x1_0000_0000_0000_0000_0000_0000_0000) % 0x1_0000) as nat);
                lemma_hex_chars_ascii(((v / 0x1_0000_0000_0000_0000_0000_0000) % 0x1_0000) as nat);
                lemma_hex_chars_ascii(((v / 0x1_0000_0000_0000_0000_0000) % 0x1_0000) as nat);
                lemma_hex_chars_ascii(((v / 0x1_0000_0000_0000_0000) % 0x1_0000) as nat);
                lemma_hex_chars_ascii(((v / 0x1_0000_0000_0000) % 0x1_0000) as nat);
                lemma_hex_chars_ascii(((v / 0x1_0000_0000) % 0x1_0000) as nat);
                lemma_hex_chars_ascii(((v / 0x1_0000) % 0x1_0000) as nat);
                lemma_hex_chars_ascii((v % 0x1_0000) as nat);
            }
            let mut s = string_from_ascii_chars(&g0);
            s.append(":");
            let t1 = string_from_ascii_chars(&g1);
            s.append(t1.as_str());
            s.append(":");
            let t2 = string_from_ascii_chars(&g2);
            s.append(t2.as_str());
            s.append(":");
            let t3 = string_from_ascii_chars(&g3);
            s.append(t3.as_str());
            s.append(":");
            let t4 = string_from_ascii_chars(&g4);
            s.append(t4.as_str());
            s.append(":");
            let t5 = string_from_ascii_chars(&g5);
            s.append(t5.as_str());
            s.append(":");
            let t6 = string_from_ascii_chars(&g6);
            s.append(t6.as_str());
            s.append(":");
            let t7 = string_from_ascii_chars(&g7);
            s.append(t7.as_str());
            proof {
                assert(s@ =~= spec_render_ipv6(v as int));
            }
            s
        },
    }
}

} // verus!
