//! The DNS wire format the resolver speaks: encoding one-question A/AAAA
//! queries, and reading answer records out of responses, with backward
//! compression pointers followed during name decoding.

use vstd::prelude::*;
use crate::ip::IpAddress;
use crate::textutil::{spec_find, find_char_at, str_chars, string_from_ascii_chars};
use vstd::utf8::is_ascii_chars;

verus! {

/// Big-endian value of two bytes.
pub open spec fn be16(hi: u8, lo: u8) -> int {
    hi * 256 + lo
}

/// The twelve header bytes of a recursion-desired query with one question.
pub open spec fn spec_query_header(id: int) -> Seq<u8> {
    seq![
        (id / 256) as u8,
        (id % 256) as u8,
        1u8,
        0u8,
        0u8,
        1u8,
        0u8,
        0u8,
        0u8,
        0u8,
        0u8,
        0u8,
    ]
}

/// The wire form of a dot-terminated name from `from` on: each label as a
/// length byte and its ASCII bytes, closed by a zero byte.  `None` when a
/// label is empty, longer than 63, not ASCII, or the name lacks its
/// trailing dot.
pub open spec fn spec_qname_bytes(s: Seq<char>, from: int) -> Option<Seq<u8>>
    decreases s.len() - from,
{
    if from < 0 {
        spec_qname_bytes(s, 0)
    } else if from >= s.len() {
        Some(seq![0u8])
    } else {
        let e = spec_find(s, from, '.');
        let e2 = if e < from {
            from
        } else if e > s.len() {
            s.len() as int
        } else {
            e
        };
        if e2 >= s.len() {
            None
        } else {
            let lab = s.subrange(from, e2);
            if 1 <= lab.len() <= 63 && is_ascii_chars(lab) {
                match spec_qname_bytes(s, e2 + 1) {
                    Option::None => None,
                    Option::Some(t) => Some(
                        seq![lab.len() as u8] + lab.map_values(|c: char| c as u8) + t,
                    ),
                }
            } else {
                None
            }
        }
    }
}

/// A whole query datagram: header, name, type, class IN.
pub open spec fn spec_dns_query(s: Seq<char>, qtype: int, id: int) -> Option<Seq<u8>> {
    match spec_qname_bytes(s, 0) {
        Option::None => None,
        Option::Some(nb) => Some(
            spec_query_header(id) + nb + seq![(qtype / 256) as u8, (qtype % 256) as u8, 0u8, 1u8],
        ),
    }
}

/// Encodes the wire bytes of the name from `from` on.
fn qname_bytes(chars: &Vec<char>, from: usize) -> (r: Option<Vec<u8>>)
    requires
        from <= chars@.len(),
    ensures
        match r {
            Some(v) => spec_qname_bytes(chars@, from as int) == Some(v@),
            None => spec_qname_bytes(chars@, from as int) is None,
        },
    decreases chars@.len() - from,
{
    let n: usize = chars.len();
    if from >= n {
        let mut v: Vec<u8> = Vec::new();
        v.push(0u8);
        proof {
            assert(v@ =~= seq![0u8]);
        }
        return Some(v);
    }
    let e = find_char_at(chars, from, '.');
    if e >= n {
        return None;
    }
    let lablen: usize = e - from;
    if lablen < 1 || lablen > 63 {
        return None;
    }
    let ghost lab = chars@.subrange(from as int, e as int);
    let mut bytes: Vec<u8> = Vec::new();
    bytes.push(lablen as u8);
    let mut i: usize = from;
    while i < e
        invariant
            from <= i <= e <= chars@.len(),
            e == spec_find(chars@, from as int, '.'),
            e < chars@.len(),
            n == chars@.len(),
            lab == chars@.subrange(from as int, e as int),
            1 <= e - from <= 63,
            bytes@ =~= seq![(e - from) as u8] + lab.subrange(0, i - from).map_values(
                |c: char| c as u8,
            ),
            forall|m: int| 0 <= m < i - from ==> '\0' <= #[trigger] lab[m] <= '\u{7f}',
        decreases e - i,
    {
        let c: char = chars[i];
        if c < '\0' || c > '\u{7f}' {
            proof {
                assert(lab[i - from] == chars@[i as int]);
                assert(!is_ascii_chars(lab));
            }
            return None;
        }
        bytes.push((c as u32) as u8);
        proof {
            assert(lab[i - from] == chars@[i as int]);
            assert(((lab[i - from] as u32) as u8) == (lab[i - from] as u8));
            assert(lab.subrange(0, i - from + 1) =~= lab.subrange(0, i - from).push(
                lab[i - from],
            ));
            assert(lab.subrange(0, i - from + 1).map_values(|c2: char| c2 as u8) =~= lab.subrange(
                0,
                i - from,
            ).map_values(|c2: char| c2 as u8).push(lab[i - from] as u8));
        }
        i = i + 1;
    }
    proof {
        assert(lab.subrange(0, e - from) =~= lab);
        assert(is_ascii_chars(lab));
    }
    match qname_bytes(chars, e + 1) {
        None => None,
        Some(mut t) => {
            bytes.append(&mut t);
            proof {
                match spec_qname_bytes(chars@, e + 1) {
                    Option::Some(ts) => {
                        assert(bytes@ =~= seq![lab.len() as u8] + lab.map_values(|c: char| c as u8)
                            + ts);
                    },
                    Option::None => {},
                }
            }
            Some(bytes)
        },
    }
}

/// Encodes one A or AAAA query with the recursion-desired bit set.
pub fn encode_query(name: &str, qtype: u16, id: u16) -> (r: Option<Vec<u8>>)
    ensures
        match r {
            Some(v) => spec_dns_query(name@, qtype as int, id as int) == Some(v@),
            None => spec_dns_query(name@, qtype as int, id as int) is None,
        },
{
    let chars = str_chars(name);
    match qname_bytes(&chars, 0) {
        None => None,
        Some(mut nb) => {
            let mut v: Vec<u8> = Vec::new();
            v.push((id / 256) as u8);
            v.push((id % 256) as u8);
            v.push(1u8);
            v.push(0u8);
            v.push(0u8);
            v.push(1u8);
            v.push(0u8);
            v.push(0u8);
            v.push(0u8);
            v.push(0u8);
            v.push(0u8);
            v.push(0u8);
            v.append(&mut nb);
            v.push((qtype / 256) as u8);
            v.push((qtype % 256) as u8);
            v.push(0u8);
            v.push(1u8);
            proof {
                match spec_qname_bytes(name@, 0) {
                    Option::Some(ns) => {
                        assert(v@ =~= spec_query_header(id as int) + ns + seq![
                            (qtype as int / 256) as u8,
                            (qtype as int % 256) as u8,
                            0u8,
                            1u8,
                        ]);
                    },
                    Option::None => {},
                }
            }
            Some(v)
        },
    }
}

/// A decoded name starting at `pos`: its dotted text (every label followed
/// by a dot) and the position right after the name's bytes in the initial
/// run.  Compression pointers are followed only backwards; `None` on any
/// malformed, non-ASCII, or forward-pointing name, or when the step budget
/// runs out.
pub open spec fn spec_name_at(data: Seq<u8>, pos: int, fuel: nat) -> Option<(Seq<char>, int)>
    decreases fuel,
{
    if fuel == 0 {
        None
    } else if pos < 0 || pos >= data.len() {
        None
    } else {
        let b = data[pos];
        if b == 0 {
            Some((Seq::empty(), pos + 1))
        } else if b < 64 {
            if pos + 1 + b > data.len() {
                None
            } else {
                let lab = data.subrange(pos + 1, pos + 1 + b);
                if forall|m: int| 0 <= m < lab.len() ==> 0 < #[trigger] lab[m] < 128 {
                    match spec_name_at(data, pos + 1 + b, (fuel - 1) as nat) {
                        Option::None => None,
                        Option::Some(t) => Some(
                            (lab.map_values(|x: u8| x as char) + seq!['.'] + t.0, t.1),
                        ),
                    }
                } else {
                    None
                }
            }
        } else if b >= 192 {
            if pos + 1 >= data.len() {
                None
            } else {
                let target = (b - 192) * 256 + data[pos + 1];
                if target < pos {
                    match spec_name_at(data, target, (fuel - 1) as nat) {
                        Option::None => None,
                        Option::Some(t) => Some((t.0, pos + 2)),
                    }
                } else {
                    None
                }
            }
        } else {
            None
        }
    }
}

/// Decoded names are ASCII.
pub proof fn lemma_name_ascii(data: Seq<u8>, pos: int, fuel: nat)
    ensures
        match spec_name_at(data, pos, fuel) {
            Option::Some(t) => is_ascii_chars(t.0),
            Option::None => true,
        },
    decreases fuel,
{
    if fuel > 0 && 0 <= pos < data.len() {
        let b = data[pos];
        if b == 0 {
        } else if b < 64 {
            if pos + 1 + b <= data.len() {
                lemma_name_ascii(data, pos + 1 + b, (fuel - 1) as nat);
                let lab = data.subrange(pos + 1, pos + 1 + b);
                match spec_name_at(data, pos + 1 + b, (fuel - 1) as nat) {
                    Option::Some(t) => {
                        if forall|m: int| 0 <= m < lab.len() ==> 0 < #[trigger] lab[m] < 128 {
                            let name = lab.map_values(|x: u8| x as char) + seq!['.'] + t.0;
                            assert forall|m: int| 0 <= m < name.len() implies '\0'
                                <= #[trigger] name[m] <= '\u{7f}' by {
                                if m < lab.len() {
                                    assert(name[m] == lab[m] as char);
                                    assert(0 < lab[m] < 128);
                                } else if m == lab.len() {
                                    assert(name[m] == '.');
                                } else {
                                    assert(name[m] == t.0[m - lab.len() - 1]);
                                }
                            }
                        }
                    },
                    Option::None => {},
                }
            }
        } else if b >= 192 && pos + 1 < data.len() {
            let target = (b - 192) * 256 + data[pos + 1];
            if target < pos {
                lemma_name_ascii(data, target, (fuel - 1) as nat);
            }
        }
    }
}

/// Reads one label's characters; `None` when a byte is zero or not ASCII.
fn label_chars(data: &[u8], start: usize, blen: usize) -> (r: Option<Vec<char>>)
    requires
        start + blen <= data@.len(),
    ensures
        ({
            let lab = data@.subrange(start as int, start + blen);
            match r {
                Some(v) => v@ == lab.map_values(|x: u8| x as char) && (forall|m: int|
                    0 <= m < lab.len() ==> 0 < #[trigger] lab[m] < 128),
                None => !(forall|m: int| 0 <= m < lab.len() ==> 0 < #[trigger] lab[m] < 128),
            }
        }),
{
    let ghost lab = data@.subrange(start as int, start + blen);
    let n: usize = data.len();
    let mut name: Vec<char> = Vec::new();
    let mut i: usize = 0;
    while i < blen
        invariant
            i <= blen,
            n == data@.len(),
            start + blen <= data@.len(),
            lab == data@.subrange(start as int, start + blen),
            name@ =~= lab.subrange(0, i as int).map_values(|x: u8| x as char),
            forall|m: int| 0 <= m < i ==> 0 < #[trigger] lab[m] < 128,
        decreases blen - i,
    {
        let x: u8 = data[start + i];
        proof {
            assert(lab[i as int] == data@[start + i]);
        }
        if x == 0 || x >= 128 {
            proof {
                assert(!(0 < lab[i as int] < 128));
            }
            return None;
        }
        name.push(x as char);
        proof {
            assert(lab.subrange(0, i + 1) =~= lab.subrange(0, i as int).push(lab[i as int]));
            assert(lab.subrange(0, i + 1).map_values(|x2: u8| x2 as char) =~= lab.subrange(
                0,
                i as int,
            ).map_values(|x2: u8| x2 as char).push(lab[i as int] as char));
        }
        i = i + 1;
    }
    proof {
        assert(lab.subrange(0, blen as int) =~= lab);
        assert(name@ =~= lab.map_values(|x: u8| x as char));
    }
    Some(name)
}

/// Decodes the name at `pos`.
fn name_at(data: &[u8], pos: usize, fuel: usize) -> (r: Option<(Vec<char>, usize)>)
    ensures
        match r {
            Some(t) => spec_name_at(data@, pos as int, fuel as nat) == Some((t.0@, t.1 as int))
                && t.1 <= data@.len(),
            None => spec_name_at(data@, pos as int, fuel as nat) is None,
        },
    decreases fuel,
{
    if fuel == 0 {
        return None;
    }
    let n: usize = data.len();
    if pos >= n {
        return None;
    }
    let b: u8 = data[pos];
    if b == 0 {
        let v: Vec<char> = Vec::new();
        proof {
            assert(v@ =~= Seq::<char>::empty());
        }
        Some((v, pos + 1))
    } else if b < 64 {
        let blen: usize = b as usize;
        if blen + 1 > n - pos {
            return None;
        }
        let ghost lab = data@.subrange(pos + 1, pos + 1 + b);
        let mut name: Vec<char> = match label_chars(data, pos + 1, blen) {
            Some(v) => v,
            None => {
                return None;
            },
        };
        match name_at(data, pos + 1 + blen, fuel - 1) {
            None => None,
            Some((mut rest, end)) => {
                name.push('.');
                name.append(&mut rest);
                proof {
                    match spec_name_at(data@, pos + 1 + b, (fuel - 1) as nat) {
                        Option::Some(t) => {
                            assert(name@ =~= lab.map_values(|x: u8| x as char) + seq!['.'] + t.0);
                        },
                        Option::None => {},
                    }
                }
                Some((name, end))
            },
        }
    } else if b >= 192 {
        if pos + 1 >= n {
            return None;
        }
        let target: usize = (b as usize - 192) * 256 + data[pos + 1] as usize;
        if target >= pos {
            return None;
        }
        match name_at(data, target, fuel - 1) {
            None => None,
            Some((sub, _)) => Some((sub, pos + 2)),
        }
    } else {
        None
    }
}

/// One answer record the resolver keeps: the record's own name, its
/// address, and its time to live.
pub struct DnsAnswer {
    pub name: String,
    pub addr: IpAddress,
    pub ttl: u32,
}

/// What a response datagram holds once decoded.
pub struct DnsResponse {
    pub id: u16,
    pub qname: String,
    pub qtype: u16,
    pub answers: Vec<DnsAnswer>,
    pub rcode: u16,
}

/// The answer view: name, address, time to live.
pub open spec fn spec_answer_view(a: DnsAnswer) -> (Seq<char>, IpAddress, int) {
    (a.name@, a.addr, a.ttl as int)
}

/// The records between `pos` and the end that carry an A or AAAA answer,
/// in order; other record types are skipped over.  `None` when a record is
/// cut short or a name is malformed.
pub open spec fn spec_records_at(data: Seq<u8>, pos: int, count: nat) -> Option<
    Seq<(Seq<char>, IpAddress, int)>,
>
    decreases count,
{
    if count == 0 {
        Some(Seq::empty())
    } else {
        match spec_name_at(data, pos, data.len()) {
            Option::None => None,
            Option::Some((name, after)) => {
                if after + 10 > data.len() {
                    None
                } else {
                    let rtype = be16(data[after], data[after + 1]);
                    let ttl = ((data[after + 4] * 0x100_0000) + (data[after + 5] * 0x1_0000) + (
                    data[after + 6] * 0x100) + data[after + 7]) as int;
                    let rdlen = be16(data[after + 8], data[after + 9]);
                    let rstart = after + 10;
                    if rstart + rdlen > data.len() {
                        None
                    } else {
                        let rest = spec_records_at(data, rstart + rdlen, (count - 1) as nat);
                        match rest {
                            Option::None => None,
                            Option::Some(t) => {
                                if rtype == 1 && rdlen == 4 {
                                    let v = (data[rstart] * 0x100_0000) + (data[rstart + 1]
                                        * 0x1_0000) + (data[rstart + 2] * 0x100) + data[rstart
                                        + 3];
                                    Some(seq![(name, IpAddress::V4(v as u32), ttl)] + t)
                                } else if rtype == 28 && rdlen == 16 {
                                    let v = spec_be_val(data.subrange(rstart, rstart + 16));
                                    Some(seq![(name, IpAddress::V6(v as u128), ttl)] + t)
                                } else {
                                    Some(t)
                                }
                            },
                        }
                    }
                }
            },
        }
    }
}

/// Big-endian value of a byte string.
pub open spec fn spec_be_val(s: Seq<u8>) -> int
    decreases s.len(),
{
    if s.len() == 0 {
        0
    } else {
        spec_be_val(s.drop_last()) * 256 + s.last()
    }
}

/// What a well-formed response decodes to: its id, the single question's
/// name and type, its address answers, and its response code.  `None` when
/// the datagram is malformed or does not carry exactly one question.
pub open spec fn spec_parse_response(data: Seq<u8>) -> Option<(int, Seq<char>, int, Seq<(Seq<char>, IpAddress, int)>, int)> {
    if data.len() < 12 {
        None
    } else {
        let id = be16(data[0], data[1]);
        let qd = be16(data[4], data[5]);
        let an = be16(data[6], data[7]);
        let rcode = data[3] % 16;
        if qd != 1 {
            None
        } else {
            match spec_name_at(data, 12, data.len()) {
                Option::None => None,
                Option::Some((qname, after)) => {
                    if after + 4 > data.len() {
                        None
                    } else {
                        let qtype = be16(data[after], data[after + 1]);
                        match spec_records_at(data, after + 4, an as nat) {
                            Option::None => None,
                            Option::Some(rs) => Some((id, qname, qtype, rs, rcode as int)),
                        }
                    }
                },
            }
        }
    }
}

/// Big-endian u32 out of four bytes.
fn be32_at(data: &[u8], pos: usize) -> (r: u32)
    requires
        pos + 4 <= data@.len(),
    ensures
        r == (data@[pos as int] * 0x100_0000) + (data@[pos as int + 1] * 0x1_0000) + (data@[pos
            as int + 2] * 0x100) + data@[pos as int + 3],
{
    (data[pos] as u32) * 0x100_0000 + (data[pos + 1] as u32) * 0x1_0000 + (data[pos + 2] as u32)
        * 0x100 + (data[pos + 3] as u32)
}

/// Big-endian u128 out of sixteen bytes.
fn be128_at(data: &[u8], pos: usize) -> (r: u128)
    requires
        pos + 16 <= data@.len(),
    ensures
        r == spec_be_val(data@.subrange(pos as int, pos + 16)),
{
    let ghost whole = data@.subrange(pos as int, pos + 16);
    let n: usize = data.len();
    let mut acc: u128 = 0;
    let mut i: usize = 0;
    proof {
        assert(whole.subrange(0, 0) =~= Seq::<u8>::empty());
        lemma_be_val_bound(whole.subrange(0, 0));
    }
    while i < 16
        invariant
            i <= 16,
            n == data@.len(),
            pos + 16 <= data@.len(),
            whole == data@.subrange(pos as int, pos + 16),
            acc == spec_be_val(whole.subrange(0, i as int)),
            0 <= acc < crate::codec::pow256(i as nat),
        decreases 16 - i,
    {
        let b: u8 = data[pos + i];
        proof {
            assert(whole.subrange(0, i + 1).drop_last() =~= whole.subrange(0, i as int));
            assert(whole.subrange(0, i + 1).last() == whole[i as int]);
            assert(whole[i as int] == data@[pos + i]);
            lemma_be_val_bound(whole.subrange(0, i + 1));
            crate::codec::lemma_pow256_le((i + 1) as nat, 16);
            crate::codec::lemma_pow256_steps();
        }
        acc = acc * 256 + (b as u128);
        i = i + 1;
    }
    proof {
        assert(whole.subrange(0, 16) =~= whole);
    }
    acc
}

/// Big-endian values are bounded by 256 to the length.
pub proof fn lemma_be_val_bound(s: Seq<u8>)
    ensures
        0 <= spec_be_val(s) < crate::codec::pow256(s.len()),
    decreases s.len(),
{
    crate::codec::lemma_pow256_pos(s.len());
    if s.len() > 0 {
        lemma_be_val_bound(s.drop_last());
        let p = crate::codec::pow256((s.len() - 1) as nat);
        assert(spec_be_val(s.drop_last()) * 256 + s.last() < p * 256 && spec_be_val(s.drop_last())
            * 256 >= 0) by (nonlinear_arith)
            requires
                0 <= spec_be_val(s.drop_last()) < p,
                0 <= s.last() < 256,
        ;
        assert(crate::codec::pow256(s.len()) == 256 * p);
        assert(p * 256 == 256 * p) by (nonlinear_arith);
    }
}

/// Reads a response datagram: its id, its single question, and its A/AAAA
/// answers in order.
pub fn parse_response(data: &[u8]) -> (r: Option<DnsResponse>)
    ensures
        match r {
            Some(resp) => spec_parse_response(data@) == Some(
                (
                    resp.id as int,
                    resp.qname@,
                    resp.qtype as int,
                    resp.answers@.map_values(|a: DnsAnswer| spec_answer_view(a)),
                    resp.rcode as int,
                ),
            ),
            None => spec_parse_response(data@) is None,
        },
{
    let n: usize = data.len();
    if n < 12 {
        return None;
    }
    let id: u16 = (data[0] as u16) * 256 + (data[1] as u16);
    let qd: u16 = (data[4] as u16) * 256 + (data[5] as u16);
    let an: u16 = (data[6] as u16) * 256 + (data[7] as u16);
    let rcode: u16 = (data[3] % 16) as u16;
    if qd != 1 {
        return None;
    }
    let (qname_chars, after) = match name_at(data, 12, n) {
        Some(t) => t,
        None => {
            return None;
        },
    };
    if n - after < 4 {
        return None;
    }
    let qtype: u16 = (data[after] as u16) * 256 + (data[after + 1] as u16);
    proof {
        lemma_name_ascii(data@, 12, data@.len() as nat);
    }
    let qname: String = string_from_ascii_chars(&qname_chars);
    let mut answers: Vec<DnsAnswer> = Vec::new();
    let mut pos: usize = after + 4;
    let mut left: u16 = an;
    proof {
        assert(answers@.map_values(|a: DnsAnswer| spec_answer_view(a)) =~= Seq::<
            (Seq<char>, IpAddress, int),
        >::empty());
    }
    proof {
        assert(spec_parse_response(data@) == (match spec_records_at(data@, after + 4, an as nat) {
            Option::Some(rs) => Some((id as int, qname@, qtype as int, rs, rcode as int)),
            Option::None => Option::<
                (int, Seq<char>, int, Seq<(Seq<char>, IpAddress, int)>, int),
            >::None,
        }));
    }
    while left > 0
        invariant
            n == data@.len(),
            pos <= n,
            spec_parse_response(data@) == (match spec_records_at(data@, after + 4, an as nat) {
                Option::Some(rs) => Some((id as int, qname@, qtype as int, rs, rcode as int)),
                Option::None => Option::<
                    (int, Seq<char>, int, Seq<(Seq<char>, IpAddress, int)>, int),
                >::None,
            }),
            spec_records_at(data@, after + 4, an as nat) == match spec_records_at(
                data@,
                pos as int,
                left as nat,
            ) {
                Option::Some(t) => Some(
                    answers@.map_values(|a: DnsAnswer| spec_answer_view(a)) + t,
                ),
                Option::None => Option::<Seq<(Seq<char>, IpAddress, int)>>::None,
            },
        decreases left,
    {
        let ghost av = answers@.map_values(|a: DnsAnswer| spec_answer_view(a));
        let (name_chars, rafter) = match name_at(data, pos, n) {
            Some(t) => t,
            None => {
                proof {
                    assert(spec_records_at(data@, pos as int, left as nat) is None);
                }
                return None;
            },
        };
        if n - rafter < 10 {
            proof {
                assert(spec_records_at(data@, pos as int, left as nat) is None);
            }
            return None;
        }
        let rtype: u16 = (data[rafter] as u16) * 256 + (data[rafter + 1] as u16);
        let ttl: u32 = be32_at(data, rafter + 4);
        let rdlen: u16 = (data[rafter + 8] as u16) * 256 + (data[rafter + 9] as u16);
        let rstart: usize = rafter + 10;
        if rdlen as usize > n - rstart {
            proof {
                assert(spec_records_at(data@, pos as int, left as nat) is None);
            }
            return None;
        }
        if rtype == 1 && rdlen == 4 {
            let v: u32 = be32_at(data, rstart);
            proof {
                lemma_name_ascii(data@, pos as int, data@.len() as nat);
            }
            let name = string_from_ascii_chars(&name_chars);
            answers.push(DnsAnswer { name, addr: IpAddress::V4(v), ttl });
            proof {
                let av2 = answers@.map_values(|a: DnsAnswer| spec_answer_view(a));
                let one = (name_chars@, IpAddress::V4(v), ttl as int);
                assert(av2 =~= av.push(one));
                match spec_records_at(data@, rstart + rdlen, (left - 1) as nat) {
                    Option::Some(t) => {
                        assert(av + (seq![one] + t) =~= av2 + t);
                    },
                    Option::None => {},
                }
            }
        } else if rtype == 28 && rdlen == 16 {
            let v: u128 = be128_at(data, rstart);
            proof {
                lemma_name_ascii(data@, pos as int, data@.len() as nat);
            }
            let name = string_from_ascii_chars(&name_chars);
            answers.push(DnsAnswer { name, addr: IpAddress::V6(v), ttl });
            proof {
                let av2 = answers@.map_values(|a: DnsAnswer| spec_answer_view(a));
                let one = (name_chars@, IpAddress::V6(v), ttl as int);
                assert(av2 =~= av.push(one));
                match spec_records_at(data@, rstart + rdlen, (left - 1) as nat) {
                    Option::Some(t) => {
                        assert(av + (seq![one] + t) =~= av2 + t);
                    },
                    Option::None => {},
                }
            }
        }
        pos = rstart + rdlen as usize;
        left = left - 1;
    }
    proof {
        assert(spec_records_at(data@, pos as int, 0) == Some(
            Seq::<(Seq<char>, IpAddress, int)>::empty(),
        ));
        let av = answers@.map_values(|a: DnsAnswer| spec_answer_view(a));
        assert(av + Seq::<(Seq<char>, IpAddress, int)>::empty() =~= av);
    }
    Some(DnsResponse { id, qname, qtype, answers, rcode })
}

} // verus!
