//! Length-prefixed binary output records and the little-endian integer
//! encoding they are built from.

use vstd::prelude::*;

verus! {

/// Value of a byte string read as a little-endian integer:
/// the first byte is the least significant.
pub open spec fn le_val(s: Seq<u8>) -> nat
    decreases s.len(),
{
    if s.len() == 0 {
        0
    } else {
        (s[0] + 256 * le_val(s.drop_first())) as nat
    }
}

/// 256 to the power `n`.
pub open spec fn pow256(n: nat) -> nat
    decreases n,
{
    if n == 0 {
        1
    } else {
        (256 * pow256((n - 1) as nat)) as nat
    }
}

/// The `k` little-endian bytes of `n`.
pub open spec fn le_bytes(n: nat, k: nat) -> Seq<u8> {
    Seq::new(k, |i: int| ((n / pow256(i as nat)) % 256) as u8)
}

/// Appending a byte raises its weight to 256^len.
pub proof fn lemma_le_val_snoc(s: Seq<u8>, b: u8)
    ensures
        le_val(s.push(b)) == le_val(s) + pow256(s.len()) * b,
    decreases s.len(),
{
    if s.len() == 0 {
        assert(s.push(b).drop_first() =~= Seq::<u8>::empty());
        assert(s.push(b)[0] == b);
        assert(pow256(0) == 1);
        assert(le_val(s.push(b)) == b + 256 * le_val(Seq::<u8>::empty()));
        assert(le_val(s.push(b)) == le_val(s) + pow256(s.len()) * b);
    } else {
        assert(s.push(b)[0] == s[0]);
        assert(s.push(b).drop_first() =~= s.drop_first().push(b));
        lemma_le_val_snoc(s.drop_first(), b);
        assert(le_val(s.push(b)) == s[0] + 256 * (le_val(s.drop_first()) + pow256(
            (s.len() - 1) as nat,
        ) * b));
        assert(pow256(s.len()) == 256 * pow256((s.len() - 1) as nat));
        assert(256 * (le_val(s.drop_first()) + pow256((s.len() - 1) as nat) * b) == 256 * le_val(
            s.drop_first(),
        ) + pow256(s.len()) * b) by (nonlinear_arith)
            requires
                pow256(s.len()) == 256 * pow256((s.len() - 1) as nat),
        ;
        assert(le_val(s.push(b)) == le_val(s) + pow256(s.len()) * b);
    }
}

/// A little-endian byte string of length n is below 256^n.
pub proof fn lemma_le_val_bound(s: Seq<u8>)
    ensures
        0 <= le_val(s) < pow256(s.len()),
    decreases s.len(),
{
    if s.len() == 0 {
    } else {
        lemma_le_val_bound(s.drop_first());
        assert(256 * le_val(s.drop_first()) + 255 < 256 * pow256((s.len() - 1) as nat)
            && 256 * le_val(s.drop_first()) >= 0) by (nonlinear_arith)
            requires
                0 <= le_val(s.drop_first()) < pow256((s.len() - 1) as nat),
        ;
    }
}

/// Writes `x` as eight little-endian bytes.
pub fn u64_to_le_bytes(x: u64) -> (r: Vec<u8>)
    ensures
        r@.len() == 8,
        le_val(r@) == x,
{
    let mut r: Vec<u8> = Vec::new();
    let mut v: u64 = x;
    let mut k: usize = 0;
    proof {
        assert(pow256(0) == 1);
    }
    while k < 8
        invariant
            k <= 8,
            r@.len() == k,
            le_val(r@) + pow256(k as nat) * v == x,
        decreases 8 - k,
    {
        let b: u8 = (v % 256) as u8;
        proof {
            lemma_le_val_snoc(r@, b);
            assert(le_val(r@) + pow256(k as nat) * b + pow256((k + 1) as nat) * (v / 256) == le_val(
                r@,
            ) + pow256(k as nat) * v) by (nonlinear_arith)
                requires
                    pow256((k + 1) as nat) == 256 * pow256(k as nat),
                    b == v % 256,
            ;
        }
        r.push(b);
        v = v / 256;
        k = k + 1;
    }
    proof {
        reveal_with_fuel(pow256, 9);
        assert(pow256(8) == 0x1_0000_0000_0000_0000);
        lemma_le_val_bound(r@);
        assert(le_val(r@) + 0x1_0000_0000_0000_0000 * v == x);
        assert(v == 0);
    }
    r
}

/// Reads eight little-endian bytes, starting at `from`, as a `u64`.
pub fn u64_from_le_bytes(s: &[u8], from: usize) -> (r: u64)
    requires
        from + 8 <= s@.len(),
        le_val(s@.subrange(from as int, from + 8)) < 0x1_0000_0000_0000_0000,
    ensures
        r == le_val(s@.subrange(from as int, from + 8)),
{
    let ghost whole = s@.subrange(from as int, from + 8);
    let n: usize = s.len();
    let mut acc: u64 = 0;
    let mut i: usize = 8;
    while i > 0
        invariant
            i <= 8,
            n == s@.len(),
            from + 8 <= s@.len(),
            whole == s@.subrange(from as int, from + 8),
            le_val(whole) < 0x1_0000_0000_0000_0000,
            acc == le_val(whole.skip(i as int)),
            le_val(whole.skip(i as int)) < pow256((8 - i) as nat),
        decreases i,
    {
        let b: u8 = s[from + (i - 1)];
        proof {
            assert(whole.skip(i - 1).drop_first() =~= whole.skip(i as int));
            assert(whole[i - 1] == s@[from + (i - 1)]);
            assert(whole.skip(i - 1)[0] == whole[i - 1]);
            assert(whole.skip(i - 1)[0] == b);
            assert(le_val(whole.skip(i - 1)) == b + 256 * le_val(whole.skip(i as int)));
            lemma_le_val_bound(whole.skip(i - 1));
            assert(whole.skip(i - 1).len() == 8 - (i - 1));
            lemma_pow256_le(whole.skip(i - 1).len(), 8);
            reveal_with_fuel(pow256, 9);
            assert(pow256(8) == 0x1_0000_0000_0000_0000);
        }
        acc = acc * 256 + (b as u64);
        i = i - 1;
    }
    proof {
        assert(whole.skip(0) =~= whole);
    }
    acc
}

/// `le_bytes` recovers exactly the bytes whose little-endian value was taken.
pub proof fn lemma_le_bytes_of_val(s: Seq<u8>)
    ensures
        le_bytes(le_val(s), s.len()) =~= s,
    decreases s.len(),
{
    if s.len() > 0 {
        let v = le_val(s) as int;
        let r = le_val(s.drop_first()) as int;
        vstd::arithmetic::div_mod::lemma_small_mod(s[0] as nat, 256);
        vstd::arithmetic::div_mod::lemma_mod_multiples_vanish(r, s[0] as int, 256);
        assert(v % 256 == s[0]);
        vstd::arithmetic::div_mod::lemma_div_multiples_vanish_fancy(r, s[0] as int, 256);
        assert(v / 256 == r);
        lemma_le_bytes_of_val(s.drop_first());
        assert forall|i: int| 0 <= i < s.len() implies le_bytes(le_val(s), s.len())[i] == s[i] by {
            if i == 0 {
                assert(pow256(0) == 1);
                vstd::arithmetic::div_mod::lemma_div_basics_2(v);
            } else {
                assert(le_bytes(le_val(s.drop_first()), s.drop_first().len())[i - 1] == s.drop_first()[i
                    - 1]);
                assert((r / pow256((i - 1) as nat) as int) % 256 == s[i]);
                lemma_pow256_pos((i - 1) as nat);
                vstd::arithmetic::div_mod::lemma_div_denominator(v, 256, pow256((i - 1) as nat) as int);
                assert(v / 256 / pow256((i - 1) as nat) as int == v / (256 * pow256((i - 1) as nat) as int));
                assert(pow256(i as nat) == 256 * pow256((i - 1) as nat));
                assert((v / pow256(i as nat) as int) % 256 == s[i]);
            }
        }
    }
}

/// 256^m divides 256^n when m <= n.
pub proof fn lemma_pow256_le(m: nat, n: nat)
    requires
        m <= n,
    ensures
        pow256(m) <= pow256(n),
    decreases n,
{
    if m < n {
        lemma_pow256_le(m, (n - 1) as nat);
        lemma_pow256_pos((n - 1) as nat);
        assert(pow256(n) == 256 * pow256((n - 1) as nat));
        assert(256 * pow256((n - 1) as nat) >= pow256((n - 1) as nat)) by (nonlinear_arith)
            requires
                pow256((n - 1) as nat) >= 1,
        ;
    }
}

/// The powers of 256 up to 256^16, as constants.
pub proof fn lemma_pow256_steps()
    ensures
        pow256(2) == 0x1_0000,
        pow256(14) == 0x1_0000_0000_0000_0000_0000_0000_0000,
        pow256(16) == 0x1_0000_0000_0000_0000_0000_0000_0000_0000,
{
    assert(pow256(0) == 1);
    assert(pow256(1) == 256);
    assert(pow256(2) == 0x1_0000);
    assert(pow256(3) == 0x100_0000);
    assert(pow256(4) == 0x1_0000_0000);
    assert(pow256(5) == 0x100_0000_0000);
    assert(pow256(6) == 0x1_0000_0000_0000);
    assert(pow256(7) == 0x100_0000_0000_0000);
    assert(pow256(8) == 0x1_0000_0000_0000_0000);
    assert(pow256(9) == 0x100_0000_0000_0000_0000);
    assert(pow256(10) == 0x1_0000_0000_0000_0000_0000);
    assert(pow256(11) == 0x100_0000_0000_0000_0000_0000);
    assert(pow256(12) == 0x1_0000_0000_0000_0000_0000_0000);
    assert(pow256(13) == 0x100_0000_0000_0000_0000_0000_0000);
    assert(pow256(14) == 0x1_0000_0000_0000_0000_0000_0000_0000);
    assert(pow256(15) == 0x100_0000_0000_0000_0000_0000_0000_0000);
    assert(pow256(16) == 0x1_0000_0000_0000_0000_0000_0000_0000_0000);
}

/// 256^n is positive.
pub proof fn lemma_pow256_pos(n: nat)
    ensures
        pow256(n) >= 1,
    decreases n,
{
    if n > 0 {
        lemma_pow256_pos((n - 1) as nat);
    }
}

/// One binary output record: the query, then the response body, each
/// preceded by its byte length as a little-endian `u64`.
pub open spec fn spec_record(q: Seq<u8>, b: Seq<u8>) -> Seq<u8> {
    le_bytes(q.len(), 8) + q + le_bytes(b.len(), 8) + b
}

/// A whole binary output stream: the records, concatenated.
pub open spec fn spec_record_stream(pairs: Seq<(Seq<u8>, Seq<u8>)>) -> Seq<u8>
    decreases pairs.len(),
{
    if pairs.len() == 0 {
        Seq::empty()
    } else {
        spec_record(pairs[0].0, pairs[0].1) + spec_record_stream(pairs.drop_first())
    }
}

/// What a reader that trusts the length prefixes recovers from a byte
/// stream: the `(query, body)` pairs, or `None` if the stream is cut short.
pub open spec fn spec_parse_records(s: Seq<u8>) -> Option<Seq<(Seq<u8>, Seq<u8>)>>
    decreases s.len(),
{
    if s.len() == 0 {
        Some(Seq::empty())
    } else if s.len() < 8 {
        None
    } else {
        let qlen = le_val(s.subrange(0, 8));
        if 8 + qlen > s.len() {
            None
        } else {
            let q = s.subrange(8, 8 + qlen as int);
            let rest = s.skip(8 + qlen as int);
            if rest.len() < 8 {
                None
            } else {
                let blen = le_val(rest.subrange(0, 8));
                if 8 + blen > rest.len() {
                    None
                } else {
                    let b = rest.subrange(8, 8 + blen as int);
                    match spec_parse_records(rest.skip(8 + blen as int)) {
                        Option::None => None,
                        Option::Some(t) => Some(seq![(q, b)] + t),
                    }
                }
            }
        }
    }
}

/// Encodes one `(query, body)` record of the binary output.
pub fn encode_record(q: &[u8], body: &[u8]) -> (r: Vec<u8>)
    ensures
        r@ =~= spec_record(q@, body@),
{
    let mut r = u64_to_le_bytes(q.len() as u64);
    proof {
        lemma_le_bytes_of_val(r@);
    }
    let mut i: usize = 0;
    while i < q.len()
        invariant
            i <= q@.len(),
            r@ =~= le_bytes(q@.len(), 8) + q@.subrange(0, i as int),
        decreases q@.len() - i,
    {
        r.push(q[i]);
        proof {
            assert(q@.subrange(0, i + 1) =~= q@.subrange(0, i as int).push(q@[i as int]));
        }
        i = i + 1;
    }
    proof {
        assert(q@.subrange(0, q@.len() as int) =~= q@);
    }
    let mut lb = u64_to_le_bytes(body.len() as u64);
    proof {
        lemma_le_bytes_of_val(lb@);
    }
    let ghost mid = r@;
    let mut j: usize = 0;
    while j < 8
        invariant
            j <= 8,
            lb@ =~= le_bytes(body@.len(), 8),
            r@ =~= mid + lb@.subrange(0, j as int),
        decreases 8 - j,
    {
        r.push(lb[j]);
        proof {
            assert(lb@.subrange(0, j + 1) =~= lb@.subrange(0, j as int).push(lb@[j as int]));
        }
        j = j + 1;
    }
    proof {
        assert(lb@.subrange(0, 8) =~= lb@);
    }
    let ghost mid2 = r@;
    let mut m: usize = 0;
    while m < body.len()
        invariant
            m <= body@.len(),
            r@ =~= mid2 + body@.subrange(0, m as int),
        decreases body@.len() - m,
    {
        r.push(body[m]);
        proof {
            assert(body@.subrange(0, m + 1) =~= body@.subrange(0, m as int).push(body@[m as int]));
        }
        m = m + 1;
    }
    proof {
        assert(body@.subrange(0, body@.len() as int) =~= body@);
    }
    r
}

/// Reads a whole binary output stream back into `(query, body)` pairs,
/// trusting the length prefixes; `None` if the stream is cut short.
pub fn decode_records(s: &[u8]) -> (r: Option<Vec<(Vec<u8>, Vec<u8>)>>)
    ensures
        match r {
            Option::None => spec_parse_records(s@) is None,
            Option::Some(pairs) => spec_parse_records(s@) == Some(
                pairs@.map_values(|p: (Vec<u8>, Vec<u8>)| (p.0@, p.1@)),
            ),
        },
{
    let n: usize = s.len();
    let mut pos: usize = 0;
    let mut acc: Vec<(Vec<u8>, Vec<u8>)> = Vec::new();
    proof {
        assert(s@.skip(0) =~= s@);
        assert(acc@.map_values(|p: (Vec<u8>, Vec<u8>)| (p.0@, p.1@)) =~= Seq::<(
            Seq<u8>,
            Seq<u8>,
        )>::empty());
        match spec_parse_records(s@) {
            Option::None => {}
            Option::Some(t0) => {
                assert(Seq::<(Seq<u8>, Seq<u8>)>::empty() + t0 =~= t0);
            }
        }
    }
    loop
        invariant
            pos <= n,
            n == s@.len(),
            spec_parse_records(s@) == match spec_parse_records(s@.skip(pos as int)) {
                Option::None => Option::<Seq<(Seq<u8>, Seq<u8>)>>::None,
                Option::Some(t) => Some(acc@.map_values(|p: (Vec<u8>, Vec<u8>)| (p.0@, p.1@)) + t),
            },
        decreases n - pos,
    {
        let ghost tail = s@.skip(pos as int);
        let ghost accv = acc@.map_values(|p: (Vec<u8>, Vec<u8>)| (p.0@, p.1@));
        if pos == n {
            proof {
                assert(tail =~= Seq::<u8>::empty());
                assert(accv + Seq::<(Seq<u8>, Seq<u8>)>::empty() =~= accv);
            }
            return Some(acc);
        }
        if n - pos < 8 {
            proof {
                assert(tail.len() == n - pos);
            }
            return None;
        }
        proof {
            assert(tail.subrange(0, 8) =~= s@.subrange(pos as int, pos + 8));
            lemma_le_val_bound(tail.subrange(0, 8));
            reveal_with_fuel(pow256, 9);
        }
        let qlen64: u64 = u64_from_le_bytes(s, pos);
        if qlen64 > (n - pos - 8) as u64 {
            return None;
        }
        let qlen: usize = qlen64 as usize;
        let q = read_slice(s, pos + 8, qlen);
        let ghost rest = tail.skip(8 + qlen as int);
        proof {
            assert(q@ =~= tail.subrange(8, 8 + qlen as int));
            assert(rest.len() == n - pos - 8 - qlen);
        }
        if n - pos - 8 - qlen < 8 {
            return None;
        }
        proof {
            assert(rest.subrange(0, 8) =~= s@.subrange(pos + 8 + qlen, pos + 16 + qlen as int));
            lemma_le_val_bound(rest.subrange(0, 8));
            reveal_with_fuel(pow256, 9);
        }
        let blen64: u64 = u64_from_le_bytes(s, pos + 8 + qlen);
        if blen64 > (n - pos - 16 - qlen) as u64 {
            return None;
        }
        let blen: usize = blen64 as usize;
        let b = read_slice(s, pos + 16 + qlen, blen);
        proof {
            assert(b@ =~= rest.subrange(8, 8 + blen as int));
            assert(rest.skip(8 + blen as int) =~= s@.skip(pos + 16 + qlen + blen as int));
            let one = seq![(tail.subrange(8, 8 + qlen as int), rest.subrange(8, 8 + blen as int))];
            let accv2 = acc@.push((q, b)).map_values(|p: (Vec<u8>, Vec<u8>)| (p.0@, p.1@));
            assert(accv2 =~= accv + one);
            match spec_parse_records(rest.skip(8 + blen as int)) {
                Option::None => {}
                Option::Some(t0) => {
                    assert(accv + (one + t0) =~= accv2 + t0);
                }
            }
        }
        acc.push((q, b));
        pos = pos + 16 + qlen + blen;
    }
}

/// Copies `len` bytes starting at `from`.
pub fn read_slice(s: &[u8], from: usize, len: usize) -> (r: Vec<u8>)
    requires
        from + len <= s@.len(),
    ensures
        r@ =~= s@.subrange(from as int, from + len),
{
    let n: usize = s.len();
    let mut r: Vec<u8> = Vec::new();
    let mut i: usize = 0;
    while i < len
        invariant
            i <= len,
            n == s@.len(),
            from + len <= s@.len(),
            r@ =~= s@.subrange(from as int, from + i),
        decreases len - i,
    {
        proof {
            assert(s@.subrange(from as int, from + i + 1) =~= s@.subrange(from as int, from + i as int).push(
                s@[from + i],
            ));
        }
        r.push(s[from + i]);
        i = i + 1;
    }
    r
}

/// Concatenated records are self-delimiting: a reader that respects the
/// length prefixes recovers every `(query, body)` pair.
pub proof fn lemma_record_stream_roundtrip(pairs: Seq<(Seq<u8>, Seq<u8>)>)
    requires
        forall|i: int|
            0 <= i < pairs.len() ==> #[trigger] pairs[i].0.len() < 0x1_0000_0000_0000_0000
                && pairs[i].1.len() < 0x1_0000_0000_0000_0000,
    ensures
        spec_parse_records(spec_record_stream(pairs)) == Some(pairs),
    decreases pairs.len(),
{
    if pairs.len() == 0 {
        assert(spec_record_stream(pairs) =~= Seq::<u8>::empty());
    } else {
        let q = pairs[0].0;
        let b = pairs[0].1;
        let s = spec_record_stream(pairs);
        let restream = spec_record_stream(pairs.drop_first());
        assert(s =~= le_bytes(q.len(), 8) + q + le_bytes(b.len(), 8) + b + restream);
        lemma_le_val_le_bytes(q.len());
        lemma_le_val_le_bytes(b.len());
        assert(s.subrange(0, 8) =~= le_bytes(q.len(), 8));
        assert(s.len() >= 16 + q.len() + b.len());
        assert(le_val(s.subrange(0, 8)) == q.len());
        assert(s.subrange(8, 8 + q.len() as int) =~= q);
        let rest = s.skip(8 + q.len() as int);
        assert(rest.subrange(0, 8) =~= le_bytes(b.len(), 8));
        assert(le_val(rest.subrange(0, 8)) == b.len());
        assert(rest.subrange(8, 8 + b.len() as int) =~= b);
        assert(rest.skip(8 + b.len() as int) =~= restream);
        lemma_record_stream_roundtrip(pairs.drop_first());
        assert(seq![(q, b)] + pairs.drop_first() =~= pairs);
    }
}

/// The little-endian bytes of a value below 2^64 read back as that value.
pub proof fn lemma_le_val_le_bytes(n: nat)
    requires
        n < 0x1_0000_0000_0000_0000,
    ensures
        le_val(le_bytes(n, 8)) == n,
{
    lemma_le_val_le_bytes_general(n, 8);
    reveal_with_fuel(pow256, 9);
    vstd::arithmetic::div_mod::lemma_small_mod(n, pow256(8));
}

/// In general, `k` little-endian bytes of `n` read back as `n % 256^k`.
pub proof fn lemma_le_val_le_bytes_general(n: nat, k: nat)
    ensures
        le_val(le_bytes(n, k)) == n % pow256(k),
    decreases k,
{
    if k == 0 {
        assert(pow256(0) == 1);
        vstd::arithmetic::div_mod::lemma_mod_division_less_than_divisor(n as int, 1);
    } else {
        let s = le_bytes(n, k);
        assert(pow256(0) == 1);
        vstd::arithmetic::div_mod::lemma_div_basics_2(n as int);
        assert(s[0] == n % 256);
        assert forall|i: int| 0 <= i < k - 1 implies s.drop_first()[i] == le_bytes(
            (n / 256) as nat,
            (k - 1) as nat,
        )[i] by {
            lemma_pow256_pos(i as nat);
            vstd::arithmetic::div_mod::lemma_div_denominator(n as int, 256, pow256(i as nat) as int);
            assert(pow256((i + 1) as nat) == 256 * pow256(i as nat));
        }
        assert(s.drop_first() =~= le_bytes((n / 256) as nat, (k - 1) as nat));
        lemma_le_val_le_bytes_general((n / 256) as nat, (k - 1) as nat);
        lemma_pow256_pos((k - 1) as nat);
        vstd::arithmetic::div_mod::lemma_breakdown(n as int, 256, pow256((k - 1) as nat) as int);
        assert(pow256(k) == 256 * pow256((k - 1) as nat));
    }
}

} // verus!
