//! Bucketed time wheel: a circular array of FIFO buckets, each spanning a
//! fixed interval of wall-clock time.  Elements are appended to the bucket
//! their deadline falls in and are handed back, at most once each, by a later
//! sweep whose clock has moved past that bucket.
//!
//! The callers supply the clock: every operation takes the current time in
//! whole seconds, which must never decrease between calls.

use vstd::prelude::*;

verus! {

/// Number of times `x` occurs in `s`.
pub open spec fn seq_count<T>(s: Seq<T>, x: T) -> nat
    decreases s.len(),
{
    if s.len() == 0 {
        0
    } else {
        seq_count(s.drop_first(), x) + if s[0] == x {
            1nat
        } else {
            0nat
        }
    }
}

/// Occurrences of `x` in all buckets together.
pub open spec fn buckets_count<T>(buckets: Seq<Seq<T>>, x: T) -> nat
    decreases buckets.len(),
{
    if buckets.len() == 0 {
        0
    } else {
        seq_count(buckets[0], x) + buckets_count(buckets.drop_first(), x)
    }
}

pub proof fn lemma_seq_count_push<T>(s: Seq<T>, y: T, x: T)
    ensures
        seq_count(s.push(y), x) == seq_count(s, x) + if y == x {
            1nat
        } else {
            0nat
        },
    decreases s.len(),
{
    if s.len() == 0 {
        assert(s.push(y)[0] == y);
        assert(s.push(y).drop_first() =~= Seq::<T>::empty());
        assert(seq_count(Seq::<T>::empty(), x) == 0);
        assert(seq_count(s.push(y), x) == seq_count(s.push(y).drop_first(), x) + if s.push(y)[0]
            == x {
            1nat
        } else {
            0nat
        });
        assert(seq_count(s, x) == 0);
    } else {
        assert(s.push(y)[0] == s[0]);
        assert(s.push(y).drop_first() =~= s.drop_first().push(y));
        lemma_seq_count_push(s.drop_first(), y, x);
        assert(seq_count(s.push(y), x) == seq_count(s.push(y).drop_first(), x) + if s.push(y)[0]
            == x {
            1nat
        } else {
            0nat
        });
        assert(seq_count(s, x) == seq_count(s.drop_first(), x) + if s[0] == x {
            1nat
        } else {
            0nat
        });
    }
}

/// An element of a sequence is counted at least once.
pub proof fn lemma_seq_count_member<T>(s: Seq<T>, i: int)
    requires
        0 <= i < s.len(),
    ensures
        seq_count(s, s[i]) >= 1,
    decreases s.len(),
{
    if i == 0 {
    } else {
        lemma_seq_count_member(s.drop_first(), i - 1);
        assert(s.drop_first()[i - 1] == s[i]);
    }
}

pub proof fn lemma_seq_count_add<T>(a: Seq<T>, b: Seq<T>, x: T)
    ensures
        seq_count(a + b, x) == seq_count(a, x) + seq_count(b, x),
    decreases a.len(),
{
    if a.len() == 0 {
        assert(a + b =~= b);
    } else {
        assert((a + b).drop_first() =~= a.drop_first() + b);
        lemma_seq_count_add(a.drop_first(), b, x);
    }
}

pub proof fn lemma_buckets_count_update<T>(buckets: Seq<Seq<T>>, i: int, v: Seq<T>, x: T)
    requires
        0 <= i < buckets.len(),
    ensures
        buckets_count(buckets.update(i, v), x) + seq_count(buckets[i], x) == buckets_count(
            buckets,
            x,
        ) + seq_count(v, x),
    decreases buckets.len(),
{
    if i == 0 {
        assert(buckets.update(0, v).drop_first() =~= buckets.drop_first());
    } else {
        assert(buckets.update(i, v).drop_first() =~= buckets.drop_first().update(i - 1, v));
        lemma_buckets_count_update(buckets.drop_first(), i - 1, v, x);
    }
}

/// The wheel.  `B` buckets of `s` seconds each cover a rolling window of
/// `B * s` seconds; a sweep visits the buckets between the head and the
/// current time and clears them.
pub struct ExpiryHandler<T> {
    buckets: Vec<Vec<T>>,
    start_time: u64,
    bucket_seconds: u64,
    last_cleaned: u64,
    clean_next: u64,
    clean_next_bucket: usize,
    bucket_count: usize,
}

impl<T> ExpiryHandler<T> {
    pub closed spec fn spec_buckets(self) -> Seq<Seq<T>> {
        self.buckets@.map_values(|b: Vec<T>| b@)
    }

    pub closed spec fn spec_bucket_count(self) -> int {
        self.bucket_count as int
    }

    pub closed spec fn spec_bucket_seconds(self) -> int {
        self.bucket_seconds as int
    }

    pub closed spec fn spec_start_time(self) -> int {
        self.start_time as int
    }

    pub closed spec fn spec_last_cleaned(self) -> int {
        self.last_cleaned as int
    }

    pub closed spec fn spec_head(self) -> int {
        self.clean_next_bucket as int
    }

    /// Total occurrences of `x` anywhere in the wheel.
    pub open spec fn spec_count(self, x: T) -> nat {
        buckets_count(self.spec_buckets(), x)
    }

    /// Slot number of time `t`: whole bucket widths since the wheel started.
    pub open spec fn spec_slot(self, t: int) -> int {
        (t - self.spec_start_time()) / self.spec_bucket_seconds()
    }

    /// Lifetimes are clamped to `[s, B*s - 1]`.
    pub open spec fn spec_clamp(self, lifetime: int) -> int {
        let max = self.spec_bucket_count() * self.spec_bucket_seconds() - 1;
        let min = self.spec_bucket_seconds();
        if lifetime > max {
            max
        } else if lifetime < min {
            min
        } else {
            lifetime
        }
    }

    /// Bucket an element inserted at `now` with (raw) `lifetime` goes to.
    pub open spec fn spec_bucket_of(self, now: int, lifetime: int) -> int {
        self.spec_slot(now + self.spec_clamp(lifetime)) % self.spec_bucket_count()
    }

    pub open spec fn wf(self) -> bool {
        &&& self.spec_buckets().len() == self.spec_bucket_count()
        &&& self.spec_bucket_count() >= 2
        &&& self.spec_bucket_seconds() >= 1
        &&& self.spec_bucket_count() * self.spec_bucket_seconds() < 0x4000_0000
        &&& self.spec_start_time() <= self.spec_last_cleaned()
        &&& self.spec_last_cleaned() < 0x4000_0000_0000_0000
        &&& (self.spec_last_cleaned() - self.spec_start_time()) % self.spec_bucket_seconds() == 0
        &&& self.spec_clean_next() == self.spec_last_cleaned() + self.spec_bucket_seconds()
        &&& self.spec_head() == self.spec_slot(self.spec_last_cleaned())
            % self.spec_bucket_count()
    }

    /// A fresh wheel, started at clock `now`.
    pub fn new(bucket_count: usize, bucket_seconds: usize, now: u64) -> (r: Self)
        requires
            2 <= bucket_count,
            1 <= bucket_seconds,
            bucket_count * bucket_seconds < 0x4000_0000,
            now < 0x4000_0000_0000_0000,
        ensures
            r.wf(),
            r.spec_bucket_count() == bucket_count,
            r.spec_bucket_seconds() == bucket_seconds,
            r.spec_start_time() == now,
            r.spec_last_cleaned() == now,
            r.spec_head() == 0,
            forall|i: int| 0 <= i < bucket_count ==> r.spec_buckets()[i] =~= Seq::<T>::empty(),
    {
        let mut buckets: Vec<Vec<T>> = Vec::new();
        let mut i: usize = 0;
        while i < bucket_count
            invariant
                i <= bucket_count,
                buckets@.len() == i,
                forall|j: int| 0 <= j < i ==> buckets@[j]@ =~= Seq::<T>::empty(),
            decreases bucket_count - i,
        {
            buckets.push(Vec::new());
            i = i + 1;
        }
        proof {
            assert(1 * bucket_seconds <= bucket_count * bucket_seconds) by (nonlinear_arith)
                requires
                    bucket_count >= 1,
                    bucket_seconds >= 0,
            ;
        }
        let r = ExpiryHandler {
            buckets,
            start_time: now,
            bucket_seconds: bucket_seconds as u64,
            last_cleaned: now,
            clean_next: now + bucket_seconds as u64,
            clean_next_bucket: 0,
            bucket_count,
        };
        proof {
            assert(r.spec_slot(now as int) == 0) by {
                assert((now - now) as int / (bucket_seconds as int) == 0);
            }
        }
        r
    }

    /// Appends `element` to the bucket its clamped deadline falls in.
    pub fn add(&mut self, element: T, lifetime: u64, now: u64)
        requires
            old(self).wf(),
            old(self).spec_start_time() <= now,
            now < 0x4000_0000_0000_0000,
        ensures
            final(self).wf(),
            spec_add_post(*old(self), now as int, lifetime as int, element, *final(self)),
    {
        proof {
            assert(self.spec_bucket_count() * self.spec_bucket_seconds()
                >= 2 * self.spec_bucket_seconds() >= 2) by (nonlinear_arith)
                requires
                    self.spec_bucket_count() >= 2,
                    self.spec_bucket_seconds() >= 1,
            ;
        }
        let max: u64 = self.bucket_count as u64 * self.bucket_seconds - 1;
        let min: u64 = self.bucket_seconds;
        let mut duration: u64 = lifetime;
        if duration > max {
            duration = max;
        }
        if duration < min {
            duration = min;
        }
        let elapsed: u64 = (now - self.start_time) + duration;
        let bucket: usize = ((elapsed / self.bucket_seconds) % self.bucket_count as u64) as usize;
        proof {
            assert(self.spec_bucket_count() >= 2);
            assert(elapsed / self.bucket_seconds == self.spec_slot(now + duration)) by {
                assert(now + duration - self.spec_start_time() == elapsed);
            }
            assert(0 <= (elapsed as int / self.spec_bucket_seconds()) % self.spec_bucket_count()
                < self.spec_bucket_count()) by (nonlinear_arith)
                requires
                    self.spec_bucket_count() >= 2,
                    self.spec_bucket_seconds() >= 1,
                    elapsed >= 0,
            ;
        }
        let ghost pre = *self;
        let mut chosen: Vec<T> = self.buckets.remove(bucket);
        chosen.push(element);
        self.buckets.insert(bucket, chosen);
        proof {
            assert(self.spec_buckets() =~= pre.spec_buckets().update(
                bucket as int,
                pre.spec_buckets()[bucket as int].push(element),
            ));
        }
    }

    /// Visits every bucket from the head up to (not including) the bucket of
    /// the current time, clears them, and advances the head.  Returns the
    /// visited elements, oldest bucket first, in insertion order within a
    /// bucket.  Does nothing until at least one bucket width has elapsed
    /// since the last sweep.
    pub fn clean(&mut self, now: u64) -> (out: Vec<T>)
        requires
            old(self).wf(),
            now < 0x4000_0000_0000_0000,
        ensures
            final(self).wf(),
            out@ =~= spec_clean_result(*old(self), now as int),
            spec_clean_post(*old(self), now as int, *final(self)),
    {
        if now < self.clean_next {
            return Vec::new();
        }
        let ghost pre = *self;
        let ghost ib = self.spec_bucket_count();
        let ghost isec = self.spec_bucket_seconds();
        proof {
            assert(ib <= ib * isec) by (nonlinear_arith)
                requires
                    ib >= 2,
                    isec >= 1,
            ;
        }
        let mut k: u64 = (now - self.last_cleaned) / self.bucket_seconds;
        if k > self.bucket_count as u64 {
            k = self.bucket_count as u64;
        }
        proof {
            assert(k == pre.spec_cleaned_count(now as int)) by {
                vstd::arithmetic::div_mod::lemma_div_pos_is_pos(
                    now - pre.spec_last_cleaned(),
                    isec,
                );
            }
        }
        let mut out: Vec<T> = Vec::new();
        let mut i: u64 = 0;
        let head0: u64 = self.clean_next_bucket as u64;
        while i < k
            invariant
                i <= k,
                k <= ib,
                ib < 0x4000_0000,
                pre.wf(),
                ib == pre.spec_bucket_count(),
                head0 == pre.spec_head(),
                0 <= head0 < ib,
                self.bucket_count == pre.bucket_count,
                self.bucket_seconds == pre.bucket_seconds,
                self.start_time == pre.start_time,
                self.last_cleaned == pre.last_cleaned,
                self.clean_next == pre.clean_next,
                self.clean_next_bucket == pre.clean_next_bucket,
                self.spec_buckets() =~= spec_clear_swept(
                    pre.spec_buckets(),
                    head0 as int,
                    i as int,
                ),
                out@ =~= spec_sweep_out(pre.spec_buckets(), head0 as int, i as int),
            decreases k - i,
        {
            let idx: usize = (((head0 + i) % self.bucket_count as u64)) as usize;
            proof {
                vstd::arithmetic::div_mod::lemma_mod_division_less_than_divisor(
                    head0 + i as int,
                    ib,
                );
                lemma_clear_swept_len(pre.spec_buckets(), head0 as int, i as int);
                assert forall|m: int| 0 <= m < i implies #[trigger] ((head0 + m) % ib) != idx as int by {
                    lemma_mod_distinct_in_window(head0 as int, m, i as int, ib);
                }
                lemma_clear_swept_untouched(pre.spec_buckets(), head0 as int, i as int, idx as int);
            }
            let mut taken: Vec<T> = self.buckets.remove(idx);
            self.buckets.insert(idx, Vec::new());
            out.append(&mut taken);
            proof {
                lemma_sweep_out_snoc(pre.spec_buckets(), head0 as int, i as int);
                lemma_clear_swept_snoc(pre.spec_buckets(), head0 as int, i as int);
                assert(self.spec_buckets() =~= spec_clear_swept(
                    pre.spec_buckets(),
                    head0 as int,
                    i + 1,
                ));
            }
            i = i + 1;
        }
        let q: u64 = (now - self.start_time) / self.bucket_seconds;
        let new_head: u64 = q % self.bucket_count as u64;
        proof {
            vstd::arithmetic::div_mod::lemma_div_pos_is_pos(now - pre.spec_start_time(), isec);
            vstd::arithmetic::div_mod::lemma_fundamental_div_mod(
                now - pre.spec_start_time(),
                isec,
            );
            vstd::arithmetic::div_mod::lemma_mod_division_less_than_divisor(
                now - pre.spec_start_time(),
                isec,
            );
            assert(q == (now - pre.spec_start_time()) / isec);
            assert(now - pre.spec_start_time() == isec * ((now - pre.spec_start_time()) / isec) + (
            now - pre.spec_start_time()) % isec);
            assert(0 <= (now - pre.spec_start_time()) % isec);
            assert(q * isec == isec * q) by (nonlinear_arith);
            assert(q * isec <= now - pre.spec_start_time());
            assert(q * isec >= 0) by (nonlinear_arith)
                requires
                    q >= 0,
                    isec >= 1,
            ;
            vstd::arithmetic::div_mod::lemma_mod_division_less_than_divisor(q as int, ib);
            lemma_clear_swept_len(pre.spec_buckets(), head0 as int, k as int);
        }
        self.clean_next_bucket = new_head as usize;
        self.last_cleaned = self.start_time + q * self.bucket_seconds;
        self.clean_next = self.last_cleaned + self.bucket_seconds;
        proof {
            vstd::arithmetic::div_mod::lemma_mod_multiples_basic(q as int, isec);
            vstd::arithmetic::div_mod::lemma_div_by_multiple(q as int, isec);
            assert((self.spec_last_cleaned() - self.spec_start_time()) % isec == 0);
            assert(self.spec_slot(self.spec_last_cleaned()) == q);
        }
        out
    }

    pub closed spec fn spec_clean_next(self) -> int {
        self.clean_next as int
    }

    /// How many buckets a sweep at time `now` visits.
    pub open spec fn spec_cleaned_count(self, now: int) -> int {
        let raw = (now - self.spec_last_cleaned()) / self.spec_bucket_seconds();
        if raw > self.spec_bucket_count() {
            self.spec_bucket_count()
        } else {
            raw
        }
    }
}

/// Two wheels with the same geometry and sweep position: everything but
/// the bucket contents.
pub open spec fn spec_same_meta<T>(w: ExpiryHandler<T>, w2: ExpiryHandler<T>) -> bool {
    &&& w2.spec_bucket_count() == w.spec_bucket_count()
    &&& w2.spec_bucket_seconds() == w.spec_bucket_seconds()
    &&& w2.spec_start_time() == w.spec_start_time()
    &&& w2.spec_last_cleaned() == w.spec_last_cleaned()
    &&& w2.spec_clean_next() == w.spec_clean_next()
    &&& w2.spec_head() == w.spec_head()
}

/// How a wheel changes when an element is appended: the bucket of the
/// element's clamped deadline grows by that element, nothing else moves.
pub open spec fn spec_add_post<T>(
    w: ExpiryHandler<T>,
    now: int,
    lifetime: int,
    element: T,
    w2: ExpiryHandler<T>,
) -> bool {
    &&& w2.spec_buckets() =~= w.spec_buckets().update(
        w.spec_bucket_of(now, lifetime),
        w.spec_buckets()[w.spec_bucket_of(now, lifetime)].push(element),
    )
    &&& w2.spec_bucket_count() == w.spec_bucket_count()
    &&& w2.spec_bucket_seconds() == w.spec_bucket_seconds()
    &&& w2.spec_start_time() == w.spec_start_time()
    &&& w2.spec_last_cleaned() == w.spec_last_cleaned()
    &&& w2.spec_clean_next() == w.spec_clean_next()
    &&& w2.spec_head() == w.spec_head()
}

/// What a sweep at time `now` hands back.
pub open spec fn spec_clean_result<T>(w: ExpiryHandler<T>, now: int) -> Seq<T> {
    if now < w.spec_clean_next() {
        Seq::empty()
    } else {
        spec_sweep_out(w.spec_buckets(), w.spec_head(), w.spec_cleaned_count(now))
    }
}

/// How a wheel changes under a sweep at time `now`.
pub open spec fn spec_clean_post<T>(w: ExpiryHandler<T>, now: int, w2: ExpiryHandler<T>) -> bool {
    &&& now < w.spec_clean_next() ==> w2 == w
    &&& now >= w.spec_clean_next() ==> {
        &&& w2.spec_buckets() =~= spec_clear_swept(
            w.spec_buckets(),
            w.spec_head(),
            w.spec_cleaned_count(now),
        )
        &&& w2.spec_last_cleaned() == w.spec_start_time() + w.spec_slot(now)
            * w.spec_bucket_seconds()
        &&& w2.spec_clean_next() == w2.spec_last_cleaned() + w.spec_bucket_seconds()
        &&& w2.spec_head() == w.spec_slot(now) % w.spec_bucket_count()
    }
    &&& w2.spec_bucket_count() == w.spec_bucket_count()
    &&& w2.spec_bucket_seconds() == w.spec_bucket_seconds()
    &&& w2.spec_start_time() == w.spec_start_time()
}

/// The elements of `k` consecutive buckets starting at `head` (mod the
/// bucket count), in order.
pub open spec fn spec_sweep_out<T>(bs: Seq<Seq<T>>, head: int, k: int) -> Seq<T>
    decreases k,
{
    if k <= 0 || bs.len() == 0 {
        Seq::empty()
    } else {
        bs[head % bs.len() as int] + spec_sweep_out(bs, head + 1, k - 1)
    }
}

/// The buckets after clearing `k` consecutive buckets starting at `head`.
pub open spec fn spec_clear_swept<T>(bs: Seq<Seq<T>>, head: int, k: int) -> Seq<Seq<T>>
    decreases k,
{
    if k <= 0 || bs.len() == 0 {
        bs
    } else {
        spec_clear_swept(bs.update(head % bs.len() as int, Seq::empty()), head + 1, k - 1)
    }
}

pub proof fn lemma_clear_swept_len<T>(bs: Seq<Seq<T>>, head: int, k: int)
    ensures
        spec_clear_swept(bs, head, k).len() == bs.len(),
    decreases k,
{
    if k > 0 && bs.len() > 0 {
        lemma_clear_swept_len(bs.update(head % bs.len() as int, Seq::empty()), head + 1, k - 1);
    }
}

/// Two offsets below the bucket count land in different buckets.
pub proof fn lemma_mod_distinct_in_window(h: int, m: int, i: int, b: int)
    requires
        0 <= m < i < b,
        0 <= h,
    ensures
        (h + m) % b != (h + i) % b,
{
    let r = h % b;
    vstd::arithmetic::div_mod::lemma_mod_division_less_than_divisor(h, b);
    vstd::arithmetic::div_mod::lemma_add_mod_noop(h, m, b);
    vstd::arithmetic::div_mod::lemma_add_mod_noop(h, i, b);
    vstd::arithmetic::div_mod::lemma_small_mod(m as nat, b as nat);
    vstd::arithmetic::div_mod::lemma_small_mod(i as nat, b as nat);
    assert((h + m) % b == (r + m) % b);
    assert((h + i) % b == (r + i) % b);
    if r + m < b {
        vstd::arithmetic::div_mod::lemma_small_mod((r + m) as nat, b as nat);
    } else {
        vstd::arithmetic::div_mod::lemma_mod_sub_multiples_vanish(r + m, b);
        vstd::arithmetic::div_mod::lemma_small_mod((r + m - b) as nat, b as nat);
    }
    if r + i < b {
        vstd::arithmetic::div_mod::lemma_small_mod((r + i) as nat, b as nat);
    } else {
        vstd::arithmetic::div_mod::lemma_mod_sub_multiples_vanish(r + i, b);
        vstd::arithmetic::div_mod::lemma_small_mod((r + i - b) as nat, b as nat);
    }
}

/// A bucket that no cleared offset reaches keeps its contents.
pub proof fn lemma_clear_swept_untouched<T>(bs: Seq<Seq<T>>, head: int, k: int, t: int)
    requires
        bs.len() > 0,
        0 <= t < bs.len(),
        0 <= k,
        forall|m: int| 0 <= m < k ==> #[trigger] ((head + m) % bs.len() as int) != t,
    ensures
        spec_clear_swept(bs, head, k).len() == bs.len(),
        spec_clear_swept(bs, head, k)[t] == bs[t],
    decreases k,
{
    lemma_clear_swept_len(bs, head, k);
    if k > 0 {
        let bs1 = bs.update(head % bs.len() as int, Seq::empty());
        assert((head + 0) % bs.len() as int != t);
        assert forall|m: int| 0 <= m < k - 1 implies #[trigger] ((head + 1 + m) % bs1.len() as int)
            != t by {
            assert((head + (m + 1)) % bs.len() as int != t);
            assert(head + 1 + m == head + (m + 1));
        }
        lemma_clear_swept_untouched(bs1, head + 1, k - 1, t);
        vstd::arithmetic::div_mod::lemma_mod_division_less_than_divisor(head, bs.len() as int);
    }
}

/// A wheel with no copy of `x` anywhere has none in any bucket.
pub proof fn lemma_buckets_zero<T>(bs: Seq<Seq<T>>, x: T)
    requires
        buckets_count(bs, x) == 0,
    ensures
        forall|i: int| 0 <= i < bs.len() ==> seq_count(#[trigger] bs[i], x) == 0,
    decreases bs.len(),
{
    if bs.len() > 0 {
        lemma_buckets_zero(bs.drop_first(), x);
        assert forall|i: int| 0 <= i < bs.len() implies seq_count(#[trigger] bs[i], x) == 0 by {
            if i > 0 {
                assert(bs.drop_first()[i - 1] == bs[i]);
            }
        }
    }
}

/// Buckets each free of `x` make the whole wheel free of `x`.
pub proof fn lemma_buckets_count_from_zero<T>(bs: Seq<Seq<T>>, x: T)
    requires
        forall|i: int| 0 <= i < bs.len() ==> seq_count(#[trigger] bs[i], x) == 0,
    ensures
        buckets_count(bs, x) == 0,
    decreases bs.len(),
{
    if bs.len() > 0 {
        assert forall|i: int|
            0 <= i < bs.drop_first().len() implies seq_count(
            #[trigger] bs.drop_first()[i],
            x,
        ) == 0 by {
            assert(bs.drop_first()[i] == bs[i + 1]);
        }
        lemma_buckets_count_from_zero(bs.drop_first(), x);
        assert(seq_count(bs[0], x) == 0);
    }
}

/// A sweep over buckets free of `x` hands back no copy of `x`.
pub proof fn lemma_sweep_out_zero<T>(bs: Seq<Seq<T>>, h: int, k: int, x: T)
    requires
        bs.len() > 0,
        0 <= h,
        forall|j: int| 0 <= j < k ==> seq_count(#[trigger] bs[(h + j) % bs.len() as int], x) == 0,
    ensures
        seq_count(spec_sweep_out(bs, h, k), x) == 0,
    decreases k,
{
    if k > 0 {
        assert(seq_count(bs[(h + 0) % bs.len() as int], x) == 0);
        assert forall|j: int|
            0 <= j < k - 1 implies seq_count(#[trigger] bs[(h + 1 + j) % bs.len() as int], x)
            == 0 by {
            assert(h + 1 + j == h + (j + 1));
        }
        lemma_sweep_out_zero(bs, h + 1, k - 1, x);
        lemma_seq_count_add(bs[h % bs.len() as int], spec_sweep_out(bs, h + 1, k - 1), x);
    }
}

/// A sweep reads the same elements out of buckets that agree on its span.
pub proof fn lemma_sweep_out_same<T>(bs: Seq<Seq<T>>, bs1: Seq<Seq<T>>, h: int, k: int)
    requires
        bs.len() == bs1.len(),
        bs.len() > 0,
        forall|j: int| 0 <= j < k ==> #[trigger] bs1[(h + j) % bs.len() as int] == bs[(h + j)
            % bs.len() as int],
    ensures
        spec_sweep_out(bs, h, k) == spec_sweep_out(bs1, h, k),
    decreases k,
{
    if k > 0 {
        assert(bs1[(h + 0) % bs.len() as int] == bs[(h + 0) % bs.len() as int]);
        assert forall|j: int|
            0 <= j < k - 1 implies #[trigger] bs1[(h + 1 + j) % bs.len() as int] == bs[(h + 1 + j)
            % bs.len() as int] by {
            assert(h + 1 + j == h + (j + 1));
        }
        lemma_sweep_out_same(bs, bs1, h + 1, k - 1);
    }
}

/// What a sweep hands back and what stays in the buckets together carry
/// exactly what the buckets held.
pub proof fn lemma_sweep_clear_count<T>(bs: Seq<Seq<T>>, h: int, k: int, x: T)
    requires
        bs.len() > 0,
        0 <= h,
        0 <= k <= bs.len(),
    ensures
        buckets_count(spec_clear_swept(bs, h, k), x) + seq_count(spec_sweep_out(bs, h, k), x)
            == buckets_count(bs, x),
    decreases k,
{
    if k > 0 {
        let b = bs.len() as int;
        vstd::arithmetic::div_mod::lemma_mod_division_less_than_divisor(h, b);
        let bs1 = bs.update(h % b, Seq::empty());
        lemma_buckets_count_update(bs, h % b, Seq::empty(), x);
        assert forall|j: int|
            0 <= j < k - 1 implies #[trigger] bs1[(h + 1 + j) % b] == bs[(h + 1 + j) % b] by {
            lemma_mod_distinct_in_window(h, 0, j + 1, b);
            assert((h + 0) % b != (h + (j + 1)) % b);
            assert(h + 1 + j == h + (j + 1));
            vstd::arithmetic::div_mod::lemma_mod_division_less_than_divisor(h + 1 + j, b);
        }
        lemma_sweep_out_same(bs, bs1, h + 1, k - 1);
        lemma_sweep_clear_count(bs1, h + 1, k - 1, x);
        lemma_seq_count_add(bs[h % b], spec_sweep_out(bs, h + 1, k - 1), x);
    }
}

/// A cleared bucket of the swept span is empty afterwards.
pub proof fn lemma_clear_covered<T>(bs: Seq<Seq<T>>, h: int, k: int, j: int)
    requires
        bs.len() > 0,
        0 <= h,
        0 <= j < k <= bs.len(),
    ensures
        spec_clear_swept(bs, h, k)[(h + j) % bs.len() as int] =~= Seq::<T>::empty(),
    decreases k,
{
    let b = bs.len() as int;
    let bs1 = bs.update(h % b, Seq::empty());
    if j == 0 {
        vstd::arithmetic::div_mod::lemma_mod_division_less_than_divisor(h, b);
        assert forall|m: int| 0 <= m < k - 1 implies #[trigger] ((h + 1 + m) % b) != h % b by {
            lemma_mod_distinct_in_window(h, 0, m + 1, b);
            assert(h + 1 + m == h + (m + 1));
            assert((h + 0) % b != (h + (m + 1)) % b);
        }
        lemma_clear_swept_untouched(bs1, h + 1, k - 1, h % b);
        assert(bs1[h % b] =~= Seq::<T>::empty());
    } else {
        lemma_clear_covered(bs1, h + 1, k - 1, j - 1);
        assert(h + 1 + (j - 1) == h + j);
    }
}

/// Every bucket after a sweep either kept its contents or was cleared.
pub proof fn lemma_clear_subset<T>(bs: Seq<Seq<T>>, h: int, k: int)
    requires
        bs.len() > 0,
    ensures
        forall|idx: int|
            0 <= idx < bs.len() ==> (#[trigger] spec_clear_swept(bs, h, k)[idx] == bs[idx]
                || spec_clear_swept(bs, h, k)[idx] =~= Seq::<T>::empty()),
        spec_clear_swept(bs, h, k).len() == bs.len(),
    decreases k,
{
    lemma_clear_swept_len(bs, h, k);
    if k > 0 {
        let b = bs.len() as int;
        let bs1 = bs.update(h % b, Seq::empty());
        lemma_clear_subset(bs1, h + 1, k - 1);
        vstd::arithmetic::div_mod::lemma_mod_division_less_than_divisor(h, b);
        assert forall|idx: int|
            0 <= idx < bs.len() implies (#[trigger] spec_clear_swept(bs, h, k)[idx] == bs[idx]
            || spec_clear_swept(bs, h, k)[idx] =~= Seq::<T>::empty()) by {
            assert(spec_clear_swept(bs, h, k) == spec_clear_swept(bs1, h + 1, k - 1));
            if idx != h % b {
                assert(bs1[idx] == bs[idx]);
            } else {
                assert(bs1[idx] =~= Seq::<T>::empty());
            }
        }
    }
}

/// The slot of a time one bucket width later is one higher.
proof fn lemma_slot_arith(start: int, s: int, a: int, b: int)
    requires
        s >= 1,
        a <= b,
    ensures
        (a - start) / s <= (b - start) / s,
        (a + s - start) / s == (a - start) / s + 1,
{
    vstd::arithmetic::div_mod::lemma_div_is_ordered(a - start, b - start, s);
    vstd::arithmetic::div_mod::lemma_hoist_over_denominator(a - start, 1, s as nat);
    assert((a - start) / s + 1 == (a - start + 1 * s) / s);
}

/// The whole-widths gap between the last sweep and `now` is the slot gap.
proof fn lemma_gap_slots(start: int, s: int, lc: int, now: int)
    requires
        s >= 1,
        start <= lc,
        (lc - start) % s == 0,
    ensures
        (now - lc) / s == (now - start) / s - (lc - start) / s,
{
    let m = (lc - start) / s;
    vstd::arithmetic::div_mod::lemma_fundamental_div_mod(lc - start, s);
    assert(lc - start == s * m);
    vstd::arithmetic::div_mod::lemma_hoist_over_denominator(now - lc, m, s as nat);
    assert((now - lc) / s + m == (now - lc + m * s) / s);
    assert(now - lc + m * s == now - start) by (nonlinear_arith)
        requires
            lc - start == s * m,
    ;
    vstd::arithmetic::div_mod::lemma_div_by_multiple(m, s);
    assert((s * m) / s == m) by {
        assert(s * m == m * s) by (nonlinear_arith);
    }
}

/// Never before one bucket width: an element put in at `t` is not handed
/// back by a sweep at `t2` earlier than `t + s`, provided the element's
/// deadline slot lies within one wheel turn of the head.
pub proof fn lemma_wheel_lower_bound<T>(
    w: ExpiryHandler<T>,
    x: T,
    lifetime: int,
    t: int,
    w1: ExpiryHandler<T>,
    t2: int,
    out: Seq<T>,
)
    requires
        w.wf(),
        w.spec_count(x) == 0,
        w.spec_start_time() <= t,
        w.spec_last_cleaned() <= t,
        w.spec_last_cleaned() <= t2,
        t2 < t + w.spec_bucket_seconds(),
        w.spec_slot(t + w.spec_clamp(lifetime)) < w.spec_slot(w.spec_last_cleaned())
            + w.spec_bucket_count(),
        spec_add_post(w, t, lifetime, x, w1),
        out =~= spec_clean_result(w1, t2),
    ensures
        seq_count(out, x) == 0,
{
    let s = w.spec_bucket_seconds();
    let b = w.spec_bucket_count();
    let start = w.spec_start_time();
    let lc = w.spec_last_cleaned();
    let bs = w.spec_buckets();
    let bs1 = w1.spec_buckets();
    let eb = w.spec_bucket_of(t, lifetime);
    let slot_e = w.spec_slot(t + w.spec_clamp(lifetime));
    if t2 < w1.spec_clean_next() {
        assert(out =~= Seq::<T>::empty());
    } else {
        let k = w1.spec_cleaned_count(t2);
        assert(w1.spec_last_cleaned() == lc && w1.spec_bucket_seconds() == s
            && w1.spec_bucket_count() == b && w1.spec_start_time() == start
            && w1.spec_head() == w.spec_head());
        lemma_gap_slots(start, s, lc, t2);
        assert((t2 - lc) / s == w.spec_slot(t2) - w.spec_slot(lc));
        // the element's slot is past the clock's slot
        assert(w.spec_clamp(lifetime) >= s) by {
            assert(b * s - 1 >= s) by (nonlinear_arith)
                requires
                    b >= 2,
                    s >= 1,
            ;
        }
        lemma_slot_arith(start, s, t, t + w.spec_clamp(lifetime) - s);
        assert(w.spec_slot(t + s) == w.spec_slot(t) + 1) by {
            lemma_slot_arith(start, s, t, t);
        }
        vstd::arithmetic::div_mod::lemma_div_is_ordered(
            t + s - start,
            t + w.spec_clamp(lifetime) - start,
            s,
        );
        assert(slot_e >= w.spec_slot(t) + 1);
        assert(w.spec_slot(t2) <= w.spec_slot(t) + 1) by {
            vstd::arithmetic::div_mod::lemma_div_is_ordered(t2 - start, t + s - start, s);
        }
        assert(w.spec_slot(t2) <= slot_e);
        assert(w.spec_slot(lc) <= w.spec_slot(t2)) by {
            vstd::arithmetic::div_mod::lemma_div_is_ordered(lc - start, t2 - start, s);
        }
        assert(k <= w.spec_slot(t2) - w.spec_slot(lc));
        // no swept offset reaches the element's bucket
        assert(w.spec_slot(lc) >= 0) by {
            vstd::arithmetic::div_mod::lemma_div_pos_is_pos(lc - start, s);
        }
        assert forall|j: int|
            0 <= j < k implies seq_count(#[trigger] bs1[(w.spec_head() + j) % b], x) == 0 by {
            let u = w.spec_slot(lc) + j;
            vstd::arithmetic::div_mod::lemma_add_mod_noop(w.spec_slot(lc), j, b);
            vstd::arithmetic::div_mod::lemma_small_mod(j as nat, b as nat);
            assert(w.spec_head() == w.spec_slot(lc) % b);
            assert((w.spec_head() + j) % b == (w.spec_slot(lc) % b + j % b) % b);
            assert((w.spec_head() + j) % b == u % b);
            assert(u < slot_e);
            assert(slot_e - u < b);
            lemma_mod_distinct_in_window(u, 0, slot_e - u, b);
            assert(u + 0 == u && u + (slot_e - u) == slot_e);
            assert(u % b != slot_e % b);
            assert(eb == slot_e % b);
            vstd::arithmetic::div_mod::lemma_mod_division_less_than_divisor(u, b);
            assert(bs1[u % b] == bs[u % b]);
            lemma_buckets_zero(bs, x);
            assert(seq_count(bs[u % b], x) == 0);
        }
        lemma_sweep_out_zero(bs1, w.spec_head(), k, x);
    }
}

/// Delivered once the clock has moved a full lifetime and one width past
/// the insertion, provided the sweep does not lag the clock by more than
/// one wheel turn.
pub proof fn lemma_wheel_delivery<T>(
    w: ExpiryHandler<T>,
    x: T,
    lifetime: int,
    t: int,
    w1: ExpiryHandler<T>,
    t2: int,
    out: Seq<T>,
)
    requires
        w.wf(),
        w.spec_count(x) == 0,
        w.spec_start_time() <= w.spec_last_cleaned(),
        w.spec_last_cleaned() <= t,
        t + w.spec_clamp(lifetime) + w.spec_bucket_seconds() <= t2,
        w.spec_slot(t2) - w.spec_slot(w.spec_last_cleaned()) <= w.spec_bucket_count(),
        spec_add_post(w, t, lifetime, x, w1),
        out =~= spec_clean_result(w1, t2),
    ensures
        seq_count(out, x) == 1,
{
    let s = w.spec_bucket_seconds();
    let b = w.spec_bucket_count();
    let start = w.spec_start_time();
    let lc = w.spec_last_cleaned();
    let bs = w.spec_buckets();
    let bs1 = w1.spec_buckets();
    let eb = w.spec_bucket_of(t, lifetime);
    let slot_e = w.spec_slot(t + w.spec_clamp(lifetime));
    assert(w.spec_clamp(lifetime) >= s) by {
        assert(b * s - 1 >= s) by (nonlinear_arith)
            requires
                b >= 2,
                s >= 1,
        ;
    }
    assert(t2 >= w1.spec_clean_next());
    let k = w1.spec_cleaned_count(t2);
    lemma_gap_slots(start, s, lc, t2);
    assert((t2 - lc) / s == w.spec_slot(t2) - w.spec_slot(lc));
    assert(w.spec_slot(lc) <= w.spec_slot(t)) by {
        vstd::arithmetic::div_mod::lemma_div_is_ordered(lc - start, t - start, s);
    }
    assert(w.spec_slot(t) <= slot_e) by {
        vstd::arithmetic::div_mod::lemma_div_is_ordered(
            t - start,
            t + w.spec_clamp(lifetime) - start,
            s,
        );
    }
    assert(w.spec_slot(t2) >= slot_e + 1) by {
        lemma_slot_arith(
            start,
            s,
            t + w.spec_clamp(lifetime),
            t + w.spec_clamp(lifetime),
        );
        vstd::arithmetic::div_mod::lemma_div_is_ordered(
            t + w.spec_clamp(lifetime) + s - start,
            t2 - start,
            s,
        );
    }
    assert(k == w.spec_slot(t2) - w.spec_slot(lc));
    let jstar = slot_e - w.spec_slot(lc);
    assert(0 <= jstar < k);
    // the element's bucket is inside the swept span
    vstd::arithmetic::div_mod::lemma_add_mod_noop(w.spec_slot(lc), jstar, b);
    assert(w.spec_slot(lc) >= 0) by {
        vstd::arithmetic::div_mod::lemma_div_pos_is_pos(lc - start, s);
    }
    vstd::arithmetic::div_mod::lemma_small_mod(jstar as nat, b as nat);
    assert((w.spec_head() + jstar) % b == (w.spec_slot(lc) + jstar) % b) by {
        assert(w.spec_head() == w.spec_slot(lc) % b);
    }
    assert((w.spec_head() + jstar) % b == eb);
    // one copy of x is in the wheel, in that bucket
    vstd::arithmetic::div_mod::lemma_mod_division_less_than_divisor(slot_e, b);
    lemma_buckets_count_update(bs, eb, bs[eb].push(x), x);
    lemma_seq_count_push(bs[eb], x, x);
    lemma_buckets_zero(bs, x);
    assert(buckets_count(bs1, x) == 1) by {
        assert(bs1 =~= bs.update(eb, bs[eb].push(x)));
    }
    lemma_sweep_clear_count(bs1, w.spec_head(), k, x);
    // nothing of x stays behind: its bucket is cleared, the others held none
    let cleared = spec_clear_swept(bs1, w.spec_head(), k);
    lemma_clear_covered(bs1, w.spec_head(), k, jstar);
    lemma_clear_subset(bs1, w.spec_head(), k);
    assert forall|idx: int| 0 <= idx < cleared.len() implies seq_count(
        #[trigger] cleared[idx],
        x,
    ) == 0 by {
        if idx == eb {
            assert(cleared[(w.spec_head() + jstar) % b] =~= Seq::<T>::empty());
        } else {
            assert(cleared[idx] == bs1[idx] || cleared[idx] =~= Seq::<T>::empty());
            if cleared[idx] == bs1[idx] {
                assert(bs1[idx] == bs[idx]);
                assert(seq_count(bs[idx], x) == 0);
            }
        }
    }
    lemma_buckets_count_from_zero(cleared, x);
}

/// `x` sits exactly once in bucket `eb` and nowhere else.
pub open spec fn spec_only_in<T>(bs: Seq<Seq<T>>, x: T, eb: int) -> bool {
    &&& forall|idx: int|
        0 <= idx < bs.len() && idx != eb ==> seq_count(#[trigger] bs[idx], x) == 0
    &&& 0 <= eb < bs.len()
    &&& seq_count(bs[eb], x) == 1
}

/// A lone occurrence makes the whole count one.
pub proof fn lemma_buckets_count_one<T>(bs: Seq<Seq<T>>, x: T, eb: int)
    requires
        spec_only_in(bs, x, eb),
    ensures
        buckets_count(bs, x) == 1,
    decreases bs.len(),
{
    if eb == 0 {
        assert forall|idx: int|
            0 <= idx < bs.drop_first().len() implies seq_count(
            #[trigger] bs.drop_first()[idx],
            x,
        ) == 0 by {
            assert(bs.drop_first()[idx] == bs[idx + 1]);
        }
        lemma_buckets_count_from_zero(bs.drop_first(), x);
    } else {
        assert forall|idx: int|
            0 <= idx < bs.drop_first().len() && idx != eb - 1 implies seq_count(
            #[trigger] bs.drop_first()[idx],
            x,
        ) == 0 by {
            assert(bs.drop_first()[idx] == bs[idx + 1]);
        }
        assert(bs.drop_first()[eb - 1] == bs[eb]);
        lemma_buckets_count_one(bs.drop_first(), x, eb - 1);
    }
}

/// The total occurrences of `x` handed back by a run of sweeps.
pub open spec fn spec_sum_counts<T>(outs: Seq<Seq<T>>, x: T) -> nat
    decreases outs.len(),
{
    if outs.len() == 0 {
        0
    } else {
        seq_count(outs[0], x) + spec_sum_counts(outs.drop_first(), x)
    }
}

/// A sweep whose clock has not passed the element's slot neither delivers
/// it nor moves it, and keeps the head within one turn of that slot.
pub proof fn lemma_step_not_swept<T>(
    w: ExpiryHandler<T>,
    now: int,
    w2: ExpiryHandler<T>,
    out: Seq<T>,
    x: T,
    slot_e: int,
)
    requires
        w.wf(),
        spec_clean_post(w, now, w2),
        out =~= spec_clean_result(w, now),
        spec_only_in(w.spec_buckets(), x, slot_e % w.spec_bucket_count()),
        w.spec_slot(w.spec_last_cleaned()) <= slot_e,
        slot_e < w.spec_slot(w.spec_last_cleaned()) + w.spec_bucket_count(),
        w.spec_slot(now) <= slot_e,
    ensures
        seq_count(out, x) == 0,
        spec_only_in(w2.spec_buckets(), x, slot_e % w2.spec_bucket_count()),
        w2.spec_slot(w2.spec_last_cleaned()) <= slot_e,
        slot_e < w2.spec_slot(w2.spec_last_cleaned()) + w2.spec_bucket_count(),
{
    let s = w.spec_bucket_seconds();
    let b = w.spec_bucket_count();
    let start = w.spec_start_time();
    let lc = w.spec_last_cleaned();
    let bs = w.spec_buckets();
    let eb = slot_e % b;
    vstd::arithmetic::div_mod::lemma_mod_division_less_than_divisor(slot_e, b);
    if now < w.spec_clean_next() {
        assert(w2 == w);
        assert(seq_count(Seq::<T>::empty(), x) == 0);
    } else {
        let k = w.spec_cleaned_count(now);
        lemma_gap_slots(start, s, lc, now);
        assert((now - lc) / s == w.spec_slot(now) - w.spec_slot(lc));
        assert(k <= w.spec_slot(now) - w.spec_slot(lc));
        assert(w.spec_slot(lc) >= 0) by {
            vstd::arithmetic::div_mod::lemma_div_pos_is_pos(lc - start, s);
        }
        assert(k >= 0) by {
            vstd::arithmetic::div_mod::lemma_div_pos_is_pos(now - lc, s);
        }
        // no swept offset reaches the element's bucket
        assert forall|j: int| 0 <= j < k implies #[trigger] ((w.spec_head() + j) % b) != eb by {
            let u = w.spec_slot(lc) + j;
            vstd::arithmetic::div_mod::lemma_add_mod_noop(w.spec_slot(lc), j, b);
            vstd::arithmetic::div_mod::lemma_small_mod(j as nat, b as nat);
            assert((w.spec_head() + j) % b == u % b);
            assert(u < slot_e);
            assert(slot_e - u < b);
            lemma_mod_distinct_in_window(u, 0, slot_e - u, b);
            assert(u + 0 == u && u + (slot_e - u) == slot_e);
        }
        assert forall|j: int|
            0 <= j < k implies seq_count(#[trigger] bs[(w.spec_head() + j) % b], x) == 0 by {
            vstd::arithmetic::div_mod::lemma_mod_division_less_than_divisor(w.spec_head() + j, b);
        }
        lemma_sweep_out_zero(bs, w.spec_head(), k, x);
        // the element's bucket is untouched, the cleared ones held nothing
        lemma_clear_swept_untouched(bs, w.spec_head(), k, eb);
        lemma_clear_subset(bs, w.spec_head(), k);
        let bs2 = spec_clear_swept(bs, w.spec_head(), k);
        assert(w2.spec_buckets() =~= bs2);
        assert forall|idx: int|
            0 <= idx < bs2.len() && idx != eb implies seq_count(#[trigger] bs2[idx], x) == 0 by {
            assert(bs2[idx] == bs[idx] || bs2[idx] =~= Seq::<T>::empty());
        }
        assert(seq_count(bs2[eb], x) == 1);
        // the head has moved up to the clock's slot, still at or before the
        // element's slot
        vstd::arithmetic::div_mod::lemma_mod_multiples_basic(w.spec_slot(now), s);
        vstd::arithmetic::div_mod::lemma_div_by_multiple(w.spec_slot(now), s);
        assert(w2.spec_last_cleaned() == start + w.spec_slot(now) * s);
        assert(w2.spec_slot(w2.spec_last_cleaned()) == w.spec_slot(now)) by {
            assert((start + w.spec_slot(now) * s - start) == w.spec_slot(now) * s);
            assert((w.spec_slot(now) * s) / s == w.spec_slot(now)) by {
                assert(w.spec_slot(now) * s == s * w.spec_slot(now)) by (nonlinear_arith);
                vstd::arithmetic::div_mod::lemma_div_by_multiple(w.spec_slot(now), s);
            }
        }
    }
}

/// A sweep whose clock has passed the element's slot delivers it, once,
/// and leaves no copy behind.
proof fn lemma_step_swept<T>(
    w: ExpiryHandler<T>,
    now: int,
    w2: ExpiryHandler<T>,
    out: Seq<T>,
    x: T,
    slot_e: int,
)
    requires
        w.wf(),
        spec_clean_post(w, now, w2),
        out =~= spec_clean_result(w, now),
        spec_only_in(w.spec_buckets(), x, slot_e % w.spec_bucket_count()),
        w.spec_slot(w.spec_last_cleaned()) <= slot_e,
        slot_e < w.spec_slot(w.spec_last_cleaned()) + w.spec_bucket_count(),
        w.spec_slot(now) >= slot_e + 1,
        w.spec_start_time() <= now,
    ensures
        seq_count(out, x) == 1,
        buckets_count(w2.spec_buckets(), x) == 0,
{
    let s = w.spec_bucket_seconds();
    let b = w.spec_bucket_count();
    let start = w.spec_start_time();
    let lc = w.spec_last_cleaned();
    let bs = w.spec_buckets();
    let eb = slot_e % b;
    vstd::arithmetic::div_mod::lemma_mod_division_less_than_divisor(slot_e, b);
    // the sweep is due: the clock's slot is past the head's
    assert(now >= w.spec_clean_next()) by {
        vstd::arithmetic::div_mod::lemma_fundamental_div_mod(lc - start, s);
        assert(lc == start + w.spec_slot(lc) * s) by {
            assert(s * ((lc - start) / s) == ((lc - start) / s) * s) by (nonlinear_arith);
        }
        if now < lc + s {
            vstd::arithmetic::div_mod::lemma_div_is_ordered(now - start, lc - start + s - 1, s);
            vstd::arithmetic::div_mod::lemma_div_multiples_vanish_fancy(w.spec_slot(lc), s - 1, s);
            assert(s * w.spec_slot(lc) + (s - 1) == lc - start + s - 1) by {
                assert(s * w.spec_slot(lc) == w.spec_slot(lc) * s) by (nonlinear_arith);
            }
            assert((lc - start + s - 1) / s == w.spec_slot(lc));
            assert(w.spec_slot(now) <= w.spec_slot(lc));
        }
    }
    let k = w.spec_cleaned_count(now);
    lemma_gap_slots(start, s, lc, now);
    assert(w.spec_slot(lc) >= 0) by {
        vstd::arithmetic::div_mod::lemma_div_pos_is_pos(lc - start, s);
    }
    let jstar = slot_e - w.spec_slot(lc);
    assert(0 <= jstar < b);
    assert(jstar < k) by {
        assert((now - lc) / s == w.spec_slot(now) - w.spec_slot(lc));
    }
    assert((w.spec_head() + jstar) % b == eb) by {
        vstd::arithmetic::div_mod::lemma_add_mod_noop(w.spec_slot(lc), jstar, b);
        vstd::arithmetic::div_mod::lemma_small_mod(jstar as nat, b as nat);
    }
    assert(0 <= k <= b) by {
        vstd::arithmetic::div_mod::lemma_div_pos_is_pos(now - lc, s);
    }
    lemma_buckets_count_one(bs, x, eb);
    lemma_sweep_clear_count(bs, w.spec_head(), k, x);
    let cleared = spec_clear_swept(bs, w.spec_head(), k);
    lemma_clear_covered(bs, w.spec_head(), k, jstar);
    lemma_clear_subset(bs, w.spec_head(), k);
    assert forall|idx: int| 0 <= idx < cleared.len() implies seq_count(
        #[trigger] cleared[idx],
        x,
    ) == 0 by {
        if idx == eb {
            assert(cleared[(w.spec_head() + jstar) % b] =~= Seq::<T>::empty());
        } else {
            assert(cleared[idx] == bs[idx] || cleared[idx] =~= Seq::<T>::empty());
        }
    }
    lemma_buckets_count_from_zero(cleared, x);
    assert(w2.spec_buckets() =~= cleared);
}

/// A freshly added element sits alone in the bucket of its deadline.
pub proof fn lemma_add_starts_alone<T>(
    w: ExpiryHandler<T>,
    t: int,
    lifetime: int,
    x: T,
    w1: ExpiryHandler<T>,
)
    requires
        w.wf(),
        w.spec_count(x) == 0,
        spec_add_post(w, t, lifetime, x, w1),
    ensures
        spec_only_in(
            w1.spec_buckets(),
            x,
            w.spec_slot(t + w.spec_clamp(lifetime)) % w.spec_bucket_count(),
        ),
{
    let eb = w.spec_bucket_of(t, lifetime);
    vstd::arithmetic::div_mod::lemma_mod_division_less_than_divisor(
        w.spec_slot(t + w.spec_clamp(lifetime)),
        w.spec_bucket_count(),
    );
    lemma_buckets_zero(w.spec_buckets(), x);
    lemma_seq_count_push(w.spec_buckets()[eb], x, x);
    assert(w1.spec_buckets() =~= w.spec_buckets().update(eb, w.spec_buckets()[eb].push(x)));
    assert forall|idx: int|
        0 <= idx < w1.spec_buckets().len() && idx != eb implies seq_count(
        #[trigger] w1.spec_buckets()[idx],
        x,
    ) == 0 by {
        assert(w1.spec_buckets()[idx] == w.spec_buckets()[idx]);
    }
}

/// A wheel holding no copy of `x` never hands one back, however many
/// sweeps follow.
proof fn lemma_chain_empty<T>(ws: Seq<ExpiryHandler<T>>, ts: Seq<int>, outs: Seq<Seq<T>>, x: T)
    requires
        ws.len() == ts.len() + 1,
        outs.len() == ts.len(),
        forall|k: int|
            0 <= k < ts.len() ==> (#[trigger] ws[k]).wf() && spec_clean_post(ws[k], ts[k], ws[k + 1])
                && outs[k] =~= spec_clean_result(ws[k], ts[k]),
        buckets_count(ws[0].spec_buckets(), x) == 0,
    ensures
        forall|k: int| 0 <= k < outs.len() ==> seq_count(#[trigger] outs[k], x) == 0,
    decreases ts.len(),
{
    if ts.len() > 0 {
        lemma_wheel_at_most_once(ws[0], ts[0], ws[1], outs[0], x);
        let ws2 = ws.drop_first();
        let ts2 = ts.drop_first();
        let outs2 = outs.drop_first();
        assert forall|k: int|
            0 <= k < ts2.len() implies (#[trigger] ws2[k]).wf() && spec_clean_post(
            ws2[k],
            ts2[k],
            ws2[k + 1],
        ) && outs2[k] =~= spec_clean_result(ws2[k], ts2[k]) by {
            assert(ws2[k] == ws[k + 1] && ws2[k + 1] == ws[k + 2] && ts2[k] == ts[k + 1] && outs2[k]
                == outs[k + 1]);
        }
        lemma_chain_empty(ws2, ts2, outs2, x);
        assert forall|k: int| 0 <= k < outs.len() implies seq_count(#[trigger] outs[k], x)
            == 0 by {
            if k > 0 {
                assert(outs2[k - 1] == outs[k]);
            }
        }
    }
}

/// One element through a whole run of sweeps: it comes back at most once,
/// and if no sweep clock passed its slot it never came back at all.
proof fn lemma_wheel_chain<T>(ws: Seq<ExpiryHandler<T>>, ts: Seq<int>, outs: Seq<Seq<T>>, x: T, slot_e: int)
    requires
        ws.len() == ts.len() + 1,
        outs.len() == ts.len(),
        forall|k: int|
            0 <= k < ts.len() ==> (#[trigger] ws[k]).wf() && spec_clean_post(ws[k], ts[k], ws[k + 1])
                && outs[k] =~= spec_clean_result(ws[k], ts[k]) && ws[k].spec_start_time() <= ts[k],
        spec_only_in(ws[0].spec_buckets(), x, slot_e % ws[0].spec_bucket_count()),
        ws[0].spec_slot(ws[0].spec_last_cleaned()) <= slot_e,
        slot_e < ws[0].spec_slot(ws[0].spec_last_cleaned()) + ws[0].spec_bucket_count(),
    ensures
        spec_sum_counts(outs, x) <= 1,
        (forall|k: int| 0 <= k < ts.len() ==> (#[trigger] ws[k]).spec_slot(ts[k]) <= slot_e)
            ==> (forall|k: int| 0 <= k < outs.len() ==> seq_count(#[trigger] outs[k], x) == 0),
        (exists|k: int| 0 <= k < ts.len() && (#[trigger] ws[k]).spec_slot(ts[k]) > slot_e)
            ==> spec_sum_counts(outs, x) == 1,
    decreases ts.len(),
{
    if ts.len() == 0 {
    } else {
        let ws2 = ws.drop_first();
        let ts2 = ts.drop_first();
        let outs2 = outs.drop_first();
        assert forall|k: int|
            0 <= k < ts2.len() implies (#[trigger] ws2[k]).wf() && spec_clean_post(
            ws2[k],
            ts2[k],
            ws2[k + 1],
        ) && outs2[k] =~= spec_clean_result(ws2[k], ts2[k]) && ws2[k].spec_start_time()
            <= ts2[k] by {
            assert(ws2[k] == ws[k + 1] && ws2[k + 1] == ws[k + 2] && ts2[k] == ts[k + 1] && outs2[k]
                == outs[k + 1]);
        }
        if ws[0].spec_slot(ts[0]) <= slot_e {
            lemma_step_not_swept(ws[0], ts[0], ws[1], outs[0], x, slot_e);
            assert(ws[1].spec_bucket_count() == ws[0].spec_bucket_count());
            lemma_wheel_chain(ws2, ts2, outs2, x, slot_e);
            assert(spec_sum_counts(outs, x) == seq_count(outs[0], x) + spec_sum_counts(outs2, x));
            assert forall|k: int|
                (forall|m: int| 0 <= m < ts.len() ==> (#[trigger] ws[m]).spec_slot(ts[m]) <= slot_e)
                    && 0 <= k < outs.len() implies seq_count(#[trigger] outs[k], x) == 0 by {
                if k > 0 {
                    assert forall|m: int|
                        0 <= m < ts2.len() implies (#[trigger] ws2[m]).spec_slot(ts2[m])
                        <= slot_e by {
                        assert(ws2[m] == ws[m + 1] && ts2[m] == ts[m + 1]);
                        assert(ws[m + 1].spec_slot(ts[m + 1]) <= slot_e);
                    }
                    assert(outs2[k - 1] == outs[k]);
                }
            }
            if exists|k: int| 0 <= k < ts.len() && (#[trigger] ws[k]).spec_slot(ts[k]) > slot_e {
                let k0 = choose|k: int|
                    0 <= k < ts.len() && (#[trigger] ws[k]).spec_slot(ts[k]) > slot_e;
                assert(k0 > 0);
                assert(ws2[k0 - 1] == ws[k0] && ts2[k0 - 1] == ts[k0]);
                assert(exists|k: int|
                    0 <= k < ts2.len() && (#[trigger] ws2[k]).spec_slot(ts2[k]) > slot_e);
            }
        } else {
            lemma_step_swept(ws[0], ts[0], ws[1], outs[0], x, slot_e);
            lemma_chain_empty(ws2, ts2, outs2, x);
            lemma_sum_of_zeros(outs2, x);
            assert(spec_sum_counts(outs, x) == seq_count(outs[0], x) + spec_sum_counts(outs2, x));
        }
    }
}

/// A run of empty hand-backs sums to nothing.
proof fn lemma_sum_of_zeros<T>(outs: Seq<Seq<T>>, x: T)
    requires
        forall|k: int| 0 <= k < outs.len() ==> seq_count(#[trigger] outs[k], x) == 0,
    ensures
        spec_sum_counts(outs, x) == 0,
    decreases outs.len(),
{
    if outs.len() > 0 {
        assert forall|k: int|
            0 <= k < outs.drop_first().len() implies seq_count(
            #[trigger] outs.drop_first()[k],
            x,
        ) == 0 by {
            assert(outs.drop_first()[k] == outs[k + 1]);
        }
        lemma_sum_of_zeros(outs.drop_first(), x);
    }
}

/// Never before one bucket width, over any run of sweeps: an element put
/// in at `t` is not handed back by any sweep whose clock stands before
/// `t + s`, provided the element's deadline slot lay within one wheel turn
/// of the head at insertion.
#[verifier::rlimit(80)]
pub proof fn lemma_wheel_lower_bound_sweeps<T>(
    w0: ExpiryHandler<T>,
    x: T,
    lifetime: int,
    t: int,
    ws: Seq<ExpiryHandler<T>>,
    ts: Seq<int>,
    outs: Seq<Seq<T>>,
)
    requires
        w0.wf(),
        w0.spec_count(x) == 0,
        w0.spec_start_time() <= w0.spec_last_cleaned(),
        w0.spec_last_cleaned() <= t,
        w0.spec_slot(t + w0.spec_clamp(lifetime)) < w0.spec_slot(w0.spec_last_cleaned())
            + w0.spec_bucket_count(),
        ws.len() == ts.len() + 1,
        outs.len() == ts.len(),
        spec_add_post(w0, t, lifetime, x, ws[0]),
        ws.len() > 0 ==> ws[0].wf(),
        forall|k: int|
            0 <= k < ts.len() ==> (#[trigger] ws[k]).wf() && spec_clean_post(ws[k], ts[k], ws[k + 1])
                && outs[k] =~= spec_clean_result(ws[k], ts[k]) && w0.spec_start_time() <= ts[k]
                && ts[k] < t + w0.spec_bucket_seconds(),
    ensures
        forall|k: int| 0 <= k < outs.len() ==> seq_count(#[trigger] outs[k], x) == 0,
{
    let s = w0.spec_bucket_seconds();
    let b = w0.spec_bucket_count();
    let start = w0.spec_start_time();
    let slot_e = w0.spec_slot(t + w0.spec_clamp(lifetime));
    lemma_add_starts_alone(w0, t, lifetime, x, ws[0]);
    assert(w0.spec_clamp(lifetime) >= s) by {
        assert(b * s - 1 >= s) by (nonlinear_arith)
            requires
                b >= 2,
                s >= 1,
        ;
    }
    lemma_slot_arith(start, s, t, t);
    vstd::arithmetic::div_mod::lemma_div_is_ordered(t + s - start, t + w0.spec_clamp(lifetime) - start, s);
    assert(slot_e >= w0.spec_slot(t) + 1);
    vstd::arithmetic::div_mod::lemma_div_is_ordered(
        w0.spec_last_cleaned() - start,
        t - start,
        s,
    );
    assert(w0.spec_slot(w0.spec_last_cleaned()) <= slot_e);
    assert forall|k: int|
        0 <= k < ts.len() implies (#[trigger] ws[k]).spec_slot(ts[k]) <= slot_e && ws[
        k
    ].spec_start_time() <= ts[k] by {
        lemma_chain_same_frame(ws, ts, outs, k);
        assert(ws[k].spec_start_time() == start && ws[k].spec_bucket_seconds() == s);
        vstd::arithmetic::div_mod::lemma_div_is_ordered(ts[k] - start, t + s - 1 - start, s);
        vstd::arithmetic::div_mod::lemma_div_is_ordered(t + s - 1 - start, t + s - start, s);
        assert(ws[k].spec_slot(ts[k]) == (ts[k] - start) / s);
        assert((ts[k] - start) / s <= w0.spec_slot(t) + 1);
    }
    lemma_wheel_chain(ws, ts, outs, x, slot_e);
}

/// Exactly once over a whole run of sweeps: the element comes back at most
/// once in total, and exactly once as soon as some sweep's clock has moved
/// a full clamped lifetime and one width past the insertion.
pub proof fn lemma_wheel_delivery_sweeps<T>(
    w0: ExpiryHandler<T>,
    x: T,
    lifetime: int,
    t: int,
    ws: Seq<ExpiryHandler<T>>,
    ts: Seq<int>,
    outs: Seq<Seq<T>>,
)
    requires
        w0.wf(),
        w0.spec_count(x) == 0,
        w0.spec_start_time() <= w0.spec_last_cleaned(),
        w0.spec_last_cleaned() <= t,
        w0.spec_slot(t + w0.spec_clamp(lifetime)) < w0.spec_slot(w0.spec_last_cleaned())
            + w0.spec_bucket_count(),
        ws.len() == ts.len() + 1,
        outs.len() == ts.len(),
        spec_add_post(w0, t, lifetime, x, ws[0]),
        forall|k: int|
            0 <= k < ts.len() ==> (#[trigger] ws[k]).wf() && spec_clean_post(ws[k], ts[k], ws[k + 1])
                && outs[k] =~= spec_clean_result(ws[k], ts[k]) && w0.spec_start_time() <= ts[k],
    ensures
        spec_sum_counts(outs, x) <= 1,
        (exists|k: int|
            0 <= k < ts.len() && #[trigger] ts[k] >= t + w0.spec_clamp(lifetime)
                + w0.spec_bucket_seconds()) ==> spec_sum_counts(outs, x) == 1,
{
    let s = w0.spec_bucket_seconds();
    let b = w0.spec_bucket_count();
    let start = w0.spec_start_time();
    let slot_e = w0.spec_slot(t + w0.spec_clamp(lifetime));
    lemma_add_starts_alone(w0, t, lifetime, x, ws[0]);
    assert(w0.spec_clamp(lifetime) >= s) by {
        assert(b * s - 1 >= s) by (nonlinear_arith)
            requires
                b >= 2,
                s >= 1,
        ;
    }
    vstd::arithmetic::div_mod::lemma_div_is_ordered(
        w0.spec_last_cleaned() - start,
        t - start,
        s,
    );
    vstd::arithmetic::div_mod::lemma_div_is_ordered(
        t - start,
        t + w0.spec_clamp(lifetime) - start,
        s,
    );
    assert(w0.spec_slot(w0.spec_last_cleaned()) <= slot_e);
    assert(spec_only_in(ws[0].spec_buckets(), x, slot_e % ws[0].spec_bucket_count()));
    assert(ws[0].spec_slot(ws[0].spec_last_cleaned()) <= slot_e);
    assert(slot_e < ws[0].spec_slot(ws[0].spec_last_cleaned()) + ws[0].spec_bucket_count());
    lemma_delivery_from_chain(w0, x, lifetime, t, ws, ts, outs, slot_e);
}

/// The chain argument of the exactly-once law, once the inserted element
/// is known to sit alone within one turn of the head.
#[verifier::rlimit(100)]
#[verifier::spinoff_prover]
proof fn lemma_delivery_from_chain<T>(
    w0: ExpiryHandler<T>,
    x: T,
    lifetime: int,
    t: int,
    ws: Seq<ExpiryHandler<T>>,
    ts: Seq<int>,
    outs: Seq<Seq<T>>,
    slot_e: int,
)
    requires
        w0.wf(),
        slot_e == w0.spec_slot(t + w0.spec_clamp(lifetime)),
        ws.len() == ts.len() + 1,
        outs.len() == ts.len(),
        ws.len() > 0 ==> ws[0].spec_start_time() == w0.spec_start_time() && ws[0]
            .spec_bucket_seconds() == w0.spec_bucket_seconds(),
        forall|k: int|
            0 <= k < ts.len() ==> (#[trigger] ws[k]).wf() && spec_clean_post(ws[k], ts[k], ws[k + 1])
                && outs[k] =~= spec_clean_result(ws[k], ts[k]) && w0.spec_start_time() <= ts[k],
        spec_only_in(ws[0].spec_buckets(), x, slot_e % ws[0].spec_bucket_count()),
        ws[0].spec_slot(ws[0].spec_last_cleaned()) <= slot_e,
        slot_e < ws[0].spec_slot(ws[0].spec_last_cleaned()) + ws[0].spec_bucket_count(),
    ensures
        spec_sum_counts(outs, x) <= 1,
        (exists|k: int|
            0 <= k < ts.len() && #[trigger] ts[k] >= t + w0.spec_clamp(lifetime)
                + w0.spec_bucket_seconds()) ==> spec_sum_counts(outs, x) == 1,
{
    assert forall|k: int| 0 <= k < ts.len() implies (#[trigger] ws[k]).spec_start_time()
        <= ts[k] by {
        lemma_chain_same_frame(ws, ts, outs, k);
    }
    lemma_wheel_chain(ws, ts, outs, x, slot_e);
    if exists|k: int|
        0 <= k < ts.len() && #[trigger] ts[k] >= t + w0.spec_clamp(lifetime)
            + w0.spec_bucket_seconds() {
        lemma_late_sweep_crosses(w0, lifetime, t, ws, ts, outs);
    }
}

/// A sweep whose clock stands a full clamped lifetime and one width past
/// the insertion has a clock slot past the element's.
proof fn lemma_late_sweep_crosses<T>(
    w0: ExpiryHandler<T>,
    lifetime: int,
    t: int,
    ws: Seq<ExpiryHandler<T>>,
    ts: Seq<int>,
    outs: Seq<Seq<T>>,
)
    requires
        w0.wf(),
        ws.len() == ts.len() + 1,
        outs.len() == ts.len(),
        ws.len() > 0 ==> ws[0].spec_start_time() == w0.spec_start_time() && ws[0]
            .spec_bucket_seconds() == w0.spec_bucket_seconds(),
        forall|k: int|
            0 <= k < ts.len() ==> (#[trigger] ws[k]).wf() && spec_clean_post(ws[k], ts[k], ws[k + 1])
                && outs[k] =~= spec_clean_result(ws[k], ts[k]),
        exists|k: int|
            0 <= k < ts.len() && #[trigger] ts[k] >= t + w0.spec_clamp(lifetime)
                + w0.spec_bucket_seconds(),
    ensures
        exists|k: int|
            0 <= k < ts.len() && (#[trigger] ws[k]).spec_slot(ts[k]) > w0.spec_slot(
                t + w0.spec_clamp(lifetime),
            ),
{
    let s = w0.spec_bucket_seconds();
    let start = w0.spec_start_time();
    let slot_e = w0.spec_slot(t + w0.spec_clamp(lifetime));
    let k0 = choose|k: int|
        0 <= k < ts.len() && #[trigger] ts[k] >= t + w0.spec_clamp(lifetime)
            + w0.spec_bucket_seconds();
    lemma_chain_same_frame(ws, ts, outs, k0);
    assert(ws[k0].spec_start_time() == start && ws[k0].spec_bucket_seconds() == s);
    lemma_slot_arith(start, s, t + w0.spec_clamp(lifetime), t + w0.spec_clamp(lifetime));
    vstd::arithmetic::div_mod::lemma_div_is_ordered(
        t + w0.spec_clamp(lifetime) + s - start,
        ts[k0] - start,
        s,
    );
    assert(ws[k0].spec_slot(ts[k0]) >= slot_e + 1);
}

/// Every wheel along a sweep run keeps the first one's geometry.
proof fn lemma_chain_same_frame<T>(
    ws: Seq<ExpiryHandler<T>>,
    ts: Seq<int>,
    outs: Seq<Seq<T>>,
    upto: int,
)
    requires
        ws.len() == ts.len() + 1,
        outs.len() == ts.len(),
        forall|k: int|
            0 <= k < ts.len() ==> (#[trigger] ws[k]).wf() && spec_clean_post(ws[k], ts[k], ws[k + 1])
                && outs[k] =~= spec_clean_result(ws[k], ts[k]),
        0 <= upto < ws.len(),
    ensures
        ws[upto].spec_start_time() == ws[0].spec_start_time(),
        ws[upto].spec_bucket_seconds() == ws[0].spec_bucket_seconds(),
        ws[upto].spec_bucket_count() == ws[0].spec_bucket_count(),
    decreases upto,
{
    if upto > 0 {
        lemma_chain_same_frame(ws, ts, outs, upto - 1);
    }
}

/// At most once, as conservation: what a sweep hands back and what stays
/// in the wheel together hold exactly what the wheel held before.
pub proof fn lemma_wheel_at_most_once<T>(
    w1: ExpiryHandler<T>,
    now: int,
    w2: ExpiryHandler<T>,
    out: Seq<T>,
    x: T,
)
    requires
        w1.wf(),
        out =~= spec_clean_result(w1, now),
        spec_clean_post(w1, now, w2),
    ensures
        seq_count(out, x) + w2.spec_count(x) == w1.spec_count(x),
{
    if now < w1.spec_clean_next() {
        assert(seq_count(Seq::<T>::empty(), x) == 0);
    } else {
        let k = w1.spec_cleaned_count(now);
        assert(0 <= k <= w1.spec_bucket_count()) by {
            vstd::arithmetic::div_mod::lemma_div_pos_is_pos(
                now - w1.spec_last_cleaned(),
                w1.spec_bucket_seconds(),
            );
        }
        lemma_sweep_clear_count(w1.spec_buckets(), w1.spec_head(), k, x);
        assert(w2.spec_buckets() =~= spec_clear_swept(w1.spec_buckets(), w1.spec_head(), k));
    }
}

pub proof fn lemma_sweep_out_snoc<T>(bs: Seq<Seq<T>>, head: int, i: int)
    requires
        bs.len() > 0,
        0 <= i,
    ensures
        spec_sweep_out(bs, head, i + 1) =~= spec_sweep_out(bs, head, i) + bs[(head + i) % bs.len()
            as int],
    decreases i,
{
    if i == 0 {
        assert(spec_sweep_out(bs, head, 1) == bs[head % bs.len() as int] + spec_sweep_out(
            bs,
            head + 1,
            0,
        ));
        assert(bs[head % bs.len() as int] + Seq::<T>::empty() =~= bs[head % bs.len() as int]);
        assert(spec_sweep_out(bs, head, 0) =~= Seq::<T>::empty());
        assert(head + 0 == head);
    } else {
        lemma_sweep_out_snoc(bs, head + 1, i - 1);
        assert(spec_sweep_out(bs, head, i + 1) == bs[head % bs.len() as int] + spec_sweep_out(
            bs,
            head + 1,
            i,
        ));
        assert(head + 1 + (i - 1) == head + i);
    }
}

pub proof fn lemma_clear_swept_snoc<T>(bs: Seq<Seq<T>>, head: int, i: int)
    requires
        bs.len() > 0,
        0 <= i,
    ensures
        spec_clear_swept(bs, head, i + 1) =~= spec_clear_swept(bs, head, i).update(
            (head + i) % bs.len() as int,
            Seq::empty(),
        ),
    decreases i,
{
    if i == 0 {
        assert(spec_clear_swept(bs, head, 1) == spec_clear_swept(
            bs.update(head % bs.len() as int, Seq::empty()),
            head + 1,
            0,
        ));
        assert(spec_clear_swept(bs, head, 0) == bs);
        assert(head + 0 == head);
    } else {
        let bs1 = bs.update(head % bs.len() as int, Seq::empty());
        lemma_clear_swept_snoc(bs1, head + 1, i - 1);
        assert(head + 1 + (i - 1) == head + i);
        assert(spec_clear_swept(bs, head, i + 1) == spec_clear_swept(bs1, head + 1, i));
        assert(spec_clear_swept(bs, head, i) == spec_clear_swept(bs1, head + 1, i - 1));
    }
}

} // verus!
