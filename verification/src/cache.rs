//! Key/value-list cache with TTL eviction driven by the expiry wheel.
//!
//! Each key maps either to a non-empty list of values (positive) or to a
//! null marker (negative).  Every stored value registers a positive wheel
//! entry; a null marker registers a negative one.  Sweeping the wheel
//! removes one value per positive entry (dropping the key when its list
//! empties) and removes a still-null key per negative entry.

use vstd::prelude::*;
use crate::expiry::{ExpiryHandler, spec_add_post, spec_clean_post, spec_clean_result, spec_same_meta};
use std::collections::VecDeque;

verus! {

/// A wheel entry shadowing one cache record: either one value of a key's
/// list (with the index it was inserted at) or a key's null marker.
pub enum ExpiryRef {
    Positive(String, usize),
    Negative(String),
}

impl ExpiryRef {
    pub open spec fn spec_key(self) -> Seq<char> {
        match self {
            ExpiryRef::Positive(k, _) => k@,
            ExpiryRef::Negative(k) => k@,
        }
    }

    pub open spec fn spec_index(self) -> int {
        match self {
            ExpiryRef::Positive(_, i) => i as int,
            ExpiryRef::Negative(_) => 0,
        }
    }

    /// The key the entry shadows.
    pub fn get_rc(&self) -> (r: String)
        ensures
            r@ == self.spec_key(),
    {
        match self {
            ExpiryRef::Negative(rc) => rc.clone(),
            ExpiryRef::Positive(rc, _) => rc.clone(),
        }
    }

    pub fn is_negative(&self) -> (r: bool)
        ensures
            r == (self is Negative),
    {
        match self {
            ExpiryRef::Negative(_) => true,
            ExpiryRef::Positive(_, _) => false,
        }
    }

    pub fn is_positive(&self) -> (r: bool)
        ensures
            r == (self is Positive),
    {
        !self.is_negative()
    }

    /// The list index a positive entry was registered under.
    pub fn get_index(&self) -> (r: usize)
        requires
            self is Positive,
        ensures
            r == self.spec_index(),
    {
        match self {
            ExpiryRef::Positive(_, size) => *size,
            ExpiryRef::Negative(_) => 0,
        }
    }
}

pub struct CacheEntry<V> {
    key: String,
    records: Option<VecDeque<V>>,
}

/// The cache: an association list of keys to records, plus the wheel that
/// expires them.
pub struct Cache<V> {
    data: Vec<CacheEntry<V>>,
    expiry: ExpiryHandler<ExpiryRef>,
    value_capacity: usize,
}

/// First record stored under `k`, if any: `Some(None)` is the null marker.
pub open spec fn spec_lookup<V>(
    es: Seq<(Seq<char>, Option<Seq<V>>)>,
    k: Seq<char>,
) -> Option<Option<Seq<V>>>
    decreases es.len(),
{
    if es.len() == 0 {
        None
    } else if es[0].0 == k {
        Some(es[0].1)
    } else {
        spec_lookup(es.drop_first(), k)
    }
}

/// Replaces the record of the first entry with key `k`.
pub open spec fn spec_set<V>(
    es: Seq<(Seq<char>, Option<Seq<V>>)>,
    k: Seq<char>,
    rec: Option<Seq<V>>,
) -> Seq<(Seq<char>, Option<Seq<V>>)>
    decreases es.len(),
{
    if es.len() == 0 {
        es
    } else if es[0].0 == k {
        seq![(k, rec)] + es.drop_first()
    } else {
        seq![es[0]] + spec_set(es.drop_first(), k, rec)
    }
}

/// The list after one round-robin step.
pub open spec fn spec_rotate<V>(vs: Seq<V>) -> Seq<V> {
    if vs.len() == 0 {
        vs
    } else {
        vs.drop_first().push(vs[0])
    }
}

/// The entries after `insert_with_direction`: the value joins `key`'s list
/// (front or back), creating the list or superseding a null marker; a full
/// list is left unchanged.
pub open spec fn spec_insert_entries<V>(
    es: Seq<(Seq<char>, Option<Seq<V>>)>,
    k: Seq<char>,
    value: V,
    back: bool,
    cap: int,
) -> Seq<(Seq<char>, Option<Seq<V>>)> {
    match spec_lookup(es, k) {
        Option::None => es + seq![(k, Some(seq![value]))],
        Option::Some(rec) => match rec {
            Option::None => spec_set(es, k, Some(seq![value])),
            Option::Some(vs) => if vs.len() < cap {
                spec_set(
                    es,
                    k,
                    Some(
                        if back {
                            vs.push(value)
                        } else {
                            seq![value] + vs
                        },
                    ),
                )
            } else {
                es
            },
        },
    }
}

/// The list index the inserted value gets a wheel entry under, or `None`
/// when the full list rejected the value.
pub open spec fn spec_insert_reg_index<V>(
    es: Seq<(Seq<char>, Option<Seq<V>>)>,
    k: Seq<char>,
    back: bool,
    cap: int,
) -> Option<int> {
    match spec_lookup(es, k) {
        Option::None => Some(0int),
        Option::Some(rec) => match rec {
            Option::None => Some(0int),
            Option::Some(vs) => if vs.len() < cap {
                Some(
                    if back {
                        vs.len() as int
                    } else {
                        0int
                    },
                )
            } else {
                None
            },
        },
    }
}

/// What one swept wheel entry does to the entries: a positive entry removes
/// one value of its key's list (the key itself once the list empties); a
/// negative entry removes its key if the key is still marked null.
pub open spec fn spec_apply_expiry<V>(
    es: Seq<(Seq<char>, Option<Seq<V>>)>,
    r: ExpiryRef,
) -> Seq<(Seq<char>, Option<Seq<V>>)>
    decreases es.len(),
{
    if es.len() == 0 {
        es
    } else if es[0].0 == r.spec_key() {
        match es[0].1 {
            Some(vs) => {
                if r is Negative {
                    es
                } else if vs.len() <= 1 {
                    es.drop_first()
                } else {
                    let j = if r.spec_index() < vs.len() {
                        r.spec_index()
                    } else {
                        vs.len() - 1
                    };
                    seq![(es[0].0, Some(vs.remove(j)))] + es.drop_first()
                }
            },
            None => {
                if r is Negative {
                    es.drop_first()
                } else {
                    es
                }
            },
        }
    } else {
        seq![es[0]] + spec_apply_expiry(es.drop_first(), r)
    }
}

/// All swept wheel entries applied in order.
pub open spec fn spec_apply_expiries<V>(
    es: Seq<(Seq<char>, Option<Seq<V>>)>,
    rs: Seq<ExpiryRef>,
) -> Seq<(Seq<char>, Option<Seq<V>>)>
    decreases rs.len(),
{
    if rs.len() == 0 {
        es
    } else {
        spec_apply_expiries(spec_apply_expiry(es, rs[0]), rs.drop_first())
    }
}

/// A wheel entry reduced to plain values: its key, its recorded list
/// index, and whether it is positive.
pub open spec fn spec_ref_view(r: ExpiryRef) -> (Seq<char>, int, bool) {
    (r.spec_key(), r.spec_index(), r is Positive)
}

/// The wheel's buckets with every entry reduced to its view.
pub open spec fn spec_wheel_views(w: ExpiryHandler<ExpiryRef>) -> Seq<Seq<(Seq<char>, int, bool)>> {
    w.spec_buckets().map_values(|b: Seq<ExpiryRef>| b.map_values(|r: ExpiryRef| spec_ref_view(r)))
}

/// Appending one entry to the wheel appends its view to the bucket of its
/// clamped deadline.
pub proof fn lemma_wheel_views_add(
    w: ExpiryHandler<ExpiryRef>,
    now: int,
    ttl: int,
    er: ExpiryRef,
    w2: ExpiryHandler<ExpiryRef>,
)
    requires
        w.wf(),
        spec_add_post(w, now, ttl, er, w2),
    ensures
        spec_same_meta(w, w2),
        spec_wheel_views(w2) =~~= spec_wheel_views(w).update(
            w.spec_bucket_of(now, ttl),
            spec_wheel_views(w)[w.spec_bucket_of(now, ttl)].push(spec_ref_view(er)),
        ),
{
    let b = w.spec_bucket_of(now, ttl);
    vstd::arithmetic::div_mod::lemma_mod_division_less_than_divisor(
        w.spec_slot(now + w.spec_clamp(ttl)),
        w.spec_bucket_count(),
    );
    assert(0 <= b < w.spec_buckets().len());
    assert(w2.spec_buckets() =~= w.spec_buckets().update(b, w.spec_buckets()[b].push(er)));
    assert forall|i: int| 0 <= i < spec_wheel_views(w2).len() implies #[trigger] spec_wheel_views(
        w2,
    )[i] =~= (if i == b {
        spec_wheel_views(w)[b].push(spec_ref_view(er))
    } else {
        spec_wheel_views(w)[i]
    }) by {
        if i == b {
            assert(w2.spec_buckets()[b] == w.spec_buckets()[b].push(er));
            assert(spec_wheel_views(w2)[b] =~= w.spec_buckets()[b].push(er).map_values(
                |r: ExpiryRef| spec_ref_view(r),
            ));
        } else {
            assert(w2.spec_buckets()[i] == w.spec_buckets()[i]);
        }
    }
}

/// Keys are unique; positive lists are non-empty and within capacity.
pub open spec fn spec_entries_wf<V>(es: Seq<(Seq<char>, Option<Seq<V>>)>, cap: int) -> bool {
    &&& forall|i: int, j: int| 0 <= i < j < es.len() ==> es[i].0 != es[j].0
    &&& forall|i: int|
        0 <= i < es.len() ==> (#[trigger] es[i].1 matches Some(vs) ==> 1 <= vs.len() <= cap)
}

/// `spec_lookup` finds the first match.
pub proof fn lemma_lookup_at<V>(es: Seq<(Seq<char>, Option<Seq<V>>)>, k: Seq<char>, idx: int)
    requires
        0 <= idx < es.len(),
        es[idx].0 == k,
        forall|m: int| 0 <= m < idx ==> es[m].0 != k,
    ensures
        spec_lookup(es, k) == Some(es[idx].1),
    decreases idx,
{
    if idx > 0 {
        lemma_lookup_at(es.drop_first(), k, idx - 1);
    }
}

/// Without a match, `spec_lookup` misses.
pub proof fn lemma_lookup_none<V>(es: Seq<(Seq<char>, Option<Seq<V>>)>, k: Seq<char>)
    requires
        forall|m: int| 0 <= m < es.len() ==> es[m].0 != k,
    ensures
        spec_lookup(es, k) is None,
    decreases es.len(),
{
    if es.len() > 0 {
        lemma_lookup_none(es.drop_first(), k);
    }
}

/// `spec_set` updates exactly the first match.
pub proof fn lemma_set_at<V>(
    es: Seq<(Seq<char>, Option<Seq<V>>)>,
    k: Seq<char>,
    rec: Option<Seq<V>>,
    idx: int,
)
    requires
        0 <= idx < es.len(),
        es[idx].0 == k,
        forall|m: int| 0 <= m < idx ==> es[m].0 != k,
    ensures
        spec_set(es, k, rec) =~= es.update(idx, (k, rec)),
    decreases idx,
{
    if idx == 0 {
        assert(seq![(k, rec)] + es.drop_first() =~= es.update(0, (k, rec)));
    } else {
        lemma_set_at(es.drop_first(), k, rec, idx - 1);
        assert(seq![es[0]] + es.drop_first().update(idx - 1, (k, rec)) =~= es.update(idx, (k, rec)));
    }
}

/// What `spec_apply_expiry` does when the key sits at `idx`.
pub proof fn lemma_apply_expiry_at<V>(es: Seq<(Seq<char>, Option<Seq<V>>)>, r: ExpiryRef, idx: int)
    requires
        0 <= idx < es.len(),
        es[idx].0 == r.spec_key(),
        forall|m: int| 0 <= m < idx ==> es[m].0 != r.spec_key(),
    ensures
        spec_apply_expiry(es, r) =~= match es[idx].1 {
            Some(vs) => {
                if r is Negative {
                    es
                } else if vs.len() <= 1 {
                    es.remove(idx)
                } else {
                    es.update(
                        idx,
                        (
                            es[idx].0,
                            Some(
                                vs.remove(
                                    if r.spec_index() < vs.len() {
                                        r.spec_index()
                                    } else {
                                        vs.len() - 1
                                    },
                                ),
                            ),
                        ),
                    )
                }
            },
            None => {
                if r is Negative {
                    es.remove(idx)
                } else {
                    es
                }
            },
        },
    decreases idx,
{
    if idx == 0 {
        assert(es.drop_first() =~= es.remove(0));
        match es[0].1 {
            Some(vs) => {
                if !(r is Negative) && vs.len() > 1 {
                    let j = if r.spec_index() < vs.len() {
                        r.spec_index()
                    } else {
                        vs.len() - 1
                    };
                    assert(seq![(es[0].0, Some(vs.remove(j)))] + es.drop_first() =~= es.update(
                        0,
                        (es[0].0, Some(vs.remove(j))),
                    ));
                }
            },
            None => {},
        }
    } else {
        lemma_apply_expiry_at(es.drop_first(), r, idx - 1);
        assert(seq![es[0]] + es.drop_first() =~= es);
        assert(seq![es[0]] + es.drop_first().remove(idx - 1) =~= es.remove(idx));
        match es[idx].1 {
            Some(vs) => {
                if !(r is Negative) && vs.len() > 1 {
                    let j = if r.spec_index() < vs.len() {
                        r.spec_index()
                    } else {
                        vs.len() - 1
                    };
                    assert(seq![es[0]] + es.drop_first().update(idx - 1, (es[idx].0, Some(vs.remove(j))))
                        =~= es.update(idx, (es[idx].0, Some(vs.remove(j)))));
                }
            },
            None => {},
        }
    }
}

/// A wheel entry whose key is absent changes nothing.
pub proof fn lemma_apply_expiry_no_match<V>(es: Seq<(Seq<char>, Option<Seq<V>>)>, r: ExpiryRef)
    requires
        forall|m: int| 0 <= m < es.len() ==> es[m].0 != r.spec_key(),
    ensures
        spec_apply_expiry(es, r) =~= es,
    decreases es.len(),
{
    if es.len() > 0 {
        lemma_apply_expiry_no_match(es.drop_first(), r);
        assert(seq![es[0]] + es.drop_first() =~= es);
    }
}

/// Folding one more wheel entry.
pub proof fn lemma_apply_expiries_snoc<V>(
    es: Seq<(Seq<char>, Option<Seq<V>>)>,
    rs: Seq<ExpiryRef>,
    i: int,
)
    requires
        0 <= i < rs.len(),
    ensures
        spec_apply_expiries(es, rs.take(i + 1)) == spec_apply_expiry(
            spec_apply_expiries(es, rs.take(i)),
            rs[i],
        ),
    decreases i,
{
    assert(rs.take(i + 1)[0] == rs[0]);
    let es1 = spec_apply_expiry(es, rs[0]);
    if i == 0 {
        assert(rs.take(1).drop_first() =~= Seq::<ExpiryRef>::empty());
        assert(rs.take(0) =~= Seq::<ExpiryRef>::empty());
        assert(spec_apply_expiries(es, rs.take(1)) == spec_apply_expiries(
            es1,
            Seq::<ExpiryRef>::empty(),
        ));
        assert(spec_apply_expiries(es, rs.take(0)) == es);
    } else {
        assert(rs.take(i + 1).drop_first() =~= rs.drop_first().take(i));
        assert(rs.take(i).drop_first() =~= rs.drop_first().take(i - 1));
        assert(rs.take(i)[0] == rs[0]);
        assert(spec_apply_expiries(es, rs.take(i + 1)) == spec_apply_expiries(
            es1,
            rs.drop_first().take(i),
        ));
        assert(spec_apply_expiries(es, rs.take(i)) == spec_apply_expiries(
            es1,
            rs.drop_first().take(i - 1),
        ));
        lemma_apply_expiries_snoc(es1, rs.drop_first(), i - 1);
        assert(rs.drop_first()[i - 1] == rs[i]);
    }
}

impl<V: Copy> Cache<V> {
    pub closed spec fn entries(self) -> Seq<(Seq<char>, Option<Seq<V>>)> {
        self.data@.map_values(
            |e: CacheEntry<V>|
                (
                    e.key@,
                    match e.records {
                        Some(d) => Some(d@),
                        None => None,
                    },
                ),
        )
    }

    pub closed spec fn spec_expiry(self) -> ExpiryHandler<ExpiryRef> {
        self.expiry
    }

    pub closed spec fn spec_value_capacity(self) -> int {
        self.value_capacity as int
    }

    pub open spec fn wf(self) -> bool {
        &&& self.spec_expiry().wf()
        &&& spec_entries_wf(self.entries(), self.spec_value_capacity())
        &&& self.spec_value_capacity() >= 1
    }

    /// The entries once a sweep at time `now` has been applied.
    pub open spec fn spec_swept(self, now: int) -> Seq<(Seq<char>, Option<Seq<V>>)> {
        spec_apply_expiries(self.entries(), spec_clean_result(self.spec_expiry(), now))
    }

    /// An empty cache whose wheel starts at clock `now`.
    pub fn new(capacity: usize, expiry_bucket_count: usize, expiry_bucket_secs: usize, now: u64) -> (r:
        Self)
        requires
            2 <= expiry_bucket_count,
            1 <= expiry_bucket_secs,
            expiry_bucket_count * expiry_bucket_secs < 0x4000_0000,
            now < 0x4000_0000_0000_0000,
        ensures
            r.wf(),
            r.entries() =~= Seq::<(Seq<char>, Option<Seq<V>>)>::empty(),
            r.spec_expiry().spec_start_time() == now,
            r.spec_expiry().spec_last_cleaned() == now,
            r.spec_expiry().spec_bucket_count() == expiry_bucket_count,
            r.spec_expiry().spec_bucket_seconds() == expiry_bucket_secs,
            r.spec_expiry().spec_head() == 0,
            forall|i: int|
                0 <= i < expiry_bucket_count ==> r.spec_expiry().spec_buckets()[i] =~= Seq::<
                    ExpiryRef,
                >::empty(),
            r.spec_value_capacity() == 16,
    {
        let data: Vec<CacheEntry<V>> = Vec::with_capacity(capacity);
        Cache {
            data,
            expiry: ExpiryHandler::new(expiry_bucket_count, expiry_bucket_secs, now),
            value_capacity: 16,
        }
    }

    /// Index of the entry holding `key`, by linear scan.
    fn find_index(&self, key: &String) -> (r: Option<usize>)
        ensures
            match r {
                Some(i) => {
                    &&& 0 <= i < self.entries().len()
                    &&& self.entries()[i as int].0 == key@
                    &&& forall|m: int| 0 <= m < i ==> self.entries()[m].0 != key@
                },
                None => forall|m: int| 0 <= m < self.entries().len() ==> self.entries()[m].0 != key@,
            },
    {
        let mut i: usize = 0;
        let n: usize = self.data.len();
        while i < n
            invariant
                i <= n,
                n == self.data@.len(),
                self.entries().len() == n,
                forall|m: int| 0 <= m < i ==> self.entries()[m].0 != key@,
            decreases n - i,
        {
            if self.data[i].key.eq(key) {
                proof {
                    assert(self.entries()[i as int].0 == key@);
                }
                return Some(i);
            }
            i = i + 1;
        }
        None
    }

    /// Applies one swept wheel entry to the stored entries.
    fn apply_one(&mut self, r: &ExpiryRef)
        requires
            spec_entries_wf(old(self).entries(), old(self).spec_value_capacity()),
        ensures
            final(self).entries() =~= spec_apply_expiry(old(self).entries(), *r),
            spec_entries_wf(final(self).entries(), final(self).spec_value_capacity()),
            final(self).spec_expiry() == old(self).spec_expiry(),
            final(self).spec_value_capacity() == old(self).spec_value_capacity(),
    {
        let ghost es = self.entries();
        let key: String = r.get_rc();
        match self.find_index(&key) {
            None => {
                proof {
                    lemma_apply_expiry_no_match(es, *r);
                }
            },
            Some(idx) => {
                proof {
                    lemma_apply_expiry_at(es, *r, idx as int);
                }
                let negative = r.is_negative();
                let mut e = self.data.remove(idx);
                let ghost removed = self.entries();
                proof {
                    assert(removed =~= es.remove(idx as int));
                }
                if e.records.is_none() {
                    if negative {
                        // drop the still-null key
                    } else {
                        self.data.insert(idx, e);
                        proof {
                            assert(self.entries() =~= es);
                        }
                    }
                } else {
                    if negative {
                        self.data.insert(idx, e);
                        proof {
                            assert(self.entries() =~= es);
                        }
                    } else {
                        let mut keep = true;
                        match &mut e.records {
                            Some(d) => {
                                if d.len() <= 1 {
                                    keep = false;
                                } else {
                                    let len: usize = d.len();
                                    let pos: usize = if r.get_index() < len {
                                        r.get_index()
                                    } else {
                                        len - 1
                                    };
                                    d.remove(pos);
                                }
                            },
                            None => {},
                        }
                        if keep {
                            self.data.insert(idx, e);
                            proof {
                                match es[idx as int].1 {
                                    Option::Some(vs) => {
                                        let j = if r.spec_index() < vs.len() {
                                            r.spec_index()
                                        } else {
                                            vs.len() as int - 1
                                        };
                                        assert(self.entries() =~= es.update(
                                            idx as int,
                                            (es[idx as int].0, Some(vs.remove(j))),
                                        ));
                                    },
                                    Option::None => {},
                                }
                            }
                        }
                    }
                }
                proof {
                    lemma_entries_wf_ops(es, self.spec_value_capacity());
                }
            },
        }
    }

    /// Sweeps the wheel at time `now` and applies every expired entry.
    pub fn clean(&mut self, now: u64)
        requires
            old(self).wf(),
            now < 0x4000_0000_0000_0000,
        ensures
            final(self).wf(),
            final(self).entries() =~= old(self).spec_swept(now as int),
            spec_clean_post(old(self).spec_expiry(), now as int, final(self).spec_expiry()),
            final(self).spec_value_capacity() == old(self).spec_value_capacity(),
    {
        let ghost base = self.entries();
        let out: Vec<ExpiryRef> = self.expiry.clean(now);
        let ghost refs = out@;
        let ghost w2 = self.spec_expiry();
        proof {
            assert(refs.take(0) =~= Seq::<ExpiryRef>::empty());
        }
        let mut i: usize = 0;
        while i < out.len()
            invariant
                i <= out@.len(),
                refs == out@,
                self.spec_expiry() == w2,
                w2.wf(),
                self.spec_value_capacity() == old(self).spec_value_capacity(),
                self.entries() =~= spec_apply_expiries(base, refs.take(i as int)),
                spec_entries_wf(self.entries(), self.spec_value_capacity()),
            decreases out@.len() - i,
        {
            proof {
                lemma_apply_expiries_snoc(base, refs, i as int);
            }
            let r = &out[i];
            self.apply_one(r);
            i = i + 1;
        }
        proof {
            assert(refs.take(refs.len() as int) =~= refs);
        }
    }

    /// Appends `value` to `key`'s list, at the front unless `back`; creates
    /// the list (superseding a null marker) if needed; registers a positive
    /// wheel entry under the value's list index.  A full list is left as it
    /// is.
    pub fn insert_with_direction(&mut self, key: String, value: V, ttl: u64, back: bool, now: u64)
        requires
            old(self).wf(),
            old(self).spec_expiry().spec_start_time() <= now,
            now < 0x4000_0000_0000_0000,
        ensures
            final(self).wf(),
            final(self).entries() =~= spec_insert_entries(
                old(self).entries(),
                key@,
                value,
                back,
                old(self).spec_value_capacity(),
            ),
            match spec_insert_reg_index(
                old(self).entries(),
                key@,
                back,
                old(self).spec_value_capacity(),
            ) {
                Some(j) => spec_add_post(
                    old(self).spec_expiry(),
                    now as int,
                    ttl as int,
                    ExpiryRef::Positive(key, j as usize),
                    final(self).spec_expiry(),
                ),
                None => final(self).spec_expiry() == old(self).spec_expiry(),
            },
            final(self).spec_value_capacity() == old(self).spec_value_capacity(),
    {
        let ghost es = self.entries();
        let ghost cap = self.spec_value_capacity();
        let found = self.find_index(&key);
        let mut reg: Option<usize> = None;
        match found {
            None => {
                proof {
                    lemma_lookup_none(es, key@);
                }
                let mut d: VecDeque<V> = VecDeque::new();
                d.push_back(value);
                self.data.push(
                    CacheEntry { key: key.clone(), records: Some(d) },
                );
                reg = Some(0);
                proof {
                    assert(self.entries() =~= es + seq![(key@, Some(seq![value]))]);
                    lemma_entries_wf_push(es, cap, key@, Some(seq![value]));
                }
            },
            Some(idx) => {
                proof {
                    lemma_lookup_at(es, key@, idx as int);
                }
                let mut e = self.data.remove(idx);
                if e.records.is_none() {
                    let mut d: VecDeque<V> = VecDeque::new();
                    d.push_back(value);
                    e.records = Some(d);
                    reg = Some(0);
                } else {
                    match &mut e.records {
                        Some(d) => {
                            if d.len() < self.value_capacity {
                                if back {
                                    d.push_back(value);
                                    reg = Some(d.len() - 1);
                                } else {
                                    d.push_front(value);
                                    reg = Some(0);
                                }
                            }
                        },
                        None => {},
                    }
                }
                self.data.insert(idx, e);
                proof {
                    match spec_lookup(es, key@) {
                        Option::None => {},
                        Option::Some(rec) => {
                            match rec {
                                Option::None => {
                                    lemma_set_at(es, key@, Some(seq![value]), idx as int);
                                    assert(self.entries() =~= es.update(
                                        idx as int,
                                        (key@, Some(seq![value])),
                                    ));
                                },
                                Option::Some(vs) => {
                                    if vs.len() < cap {
                                        let nvs = if back {
                                            vs.push(value)
                                        } else {
                                            seq![value] + vs
                                        };
                                        lemma_set_at(es, key@, Some(nvs), idx as int);
                                        assert(self.entries() =~= es.update(
                                            idx as int,
                                            (key@, Some(nvs)),
                                        ));
                                    } else {
                                        assert(self.entries() =~= es);
                                    }
                                },
                            }
                        },
                    }
                    lemma_entries_wf_ops(es, cap);
                }
            },
        }
        match reg {
            Some(j) => {
                self.expiry.add(ExpiryRef::Positive(key, j), ttl, now);
            },
            None => {},
        }
    }

    /// Appends `value` at the front of `key`'s list.
    pub fn insert(&mut self, key: String, value: V, ttl: u64, now: u64)
        requires
            old(self).wf(),
            old(self).spec_expiry().spec_start_time() <= now,
            now < 0x4000_0000_0000_0000,
        ensures
            final(self).wf(),
            final(self).entries() =~= spec_insert_entries(
                old(self).entries(),
                key@,
                value,
                false,
                old(self).spec_value_capacity(),
            ),
            match spec_insert_reg_index(
                old(self).entries(),
                key@,
                false,
                old(self).spec_value_capacity(),
            ) {
                Some(j) => spec_add_post(
                    old(self).spec_expiry(),
                    now as int,
                    ttl as int,
                    ExpiryRef::Positive(key, j as usize),
                    final(self).spec_expiry(),
                ),
                None => final(self).spec_expiry() == old(self).spec_expiry(),
            },
            final(self).spec_value_capacity() == old(self).spec_value_capacity(),
    {
        self.insert_with_direction(key, value, ttl, false, now)
    }

    /// Marks `key` as null (negative answer) and registers a negative wheel
    /// entry.  A later positive insert supersedes the marker.
    pub fn insert_negative(&mut self, key: String, ttl: u64, now: u64)
        requires
            old(self).wf(),
            old(self).spec_expiry().spec_start_time() <= now,
            now < 0x4000_0000_0000_0000,
        ensures
            final(self).wf(),
            final(self).entries() =~= match spec_lookup(old(self).entries(), key@) {
                Option::None => old(self).entries() + seq![
                    (key@, Option::<Seq<V>>::None),
                ],
                Option::Some(_) => spec_set(old(self).entries(), key@, Option::<Seq<V>>::None),
            },
            spec_add_post(
                old(self).spec_expiry(),
                now as int,
                ttl as int,
                ExpiryRef::Negative(key),
                final(self).spec_expiry(),
            ),
            final(self).spec_value_capacity() == old(self).spec_value_capacity(),
    {
        let ghost es = self.entries();
        let found = self.find_index(&key);
        match found {
            None => {
                proof {
                    lemma_lookup_none(es, key@);
                }
                self.data.push(CacheEntry { key: key.clone(), records: None });
                proof {
                    assert(self.entries() =~= es + seq![(key@, Option::<Seq<V>>::None)]);
                    lemma_entries_wf_push(es, self.spec_value_capacity(), key@, Option::<Seq<V>>::None);
                }
            },
            Some(idx) => {
                proof {
                    lemma_lookup_at(es, key@, idx as int);
                    lemma_set_at(es, key@, Option::<Seq<V>>::None, idx as int);
                }
                let mut e = self.data.remove(idx);
                e.records = None;
                self.data.insert(idx, e);
                proof {
                    assert(self.entries() =~= es.update(idx as int, (key@, Option::<Seq<V>>::None)));
                    lemma_entries_wf_ops(es, self.spec_value_capacity());
                }
            },
        }
        self.expiry.add(ExpiryRef::Negative(key), ttl, now);
    }

    /// Sweeps, optionally rotates `key`'s list one step, and returns the
    /// record: `None` on a miss, `Some(None)` for the null marker,
    /// `Some(Some(values))` for a hit.
    pub fn query(&mut self, key: &String, rotate: bool, now: u64) -> (r: Option<Option<Vec<V>>>)
        requires
            old(self).wf(),
            now < 0x4000_0000_0000_0000,
        ensures
            final(self).wf(),
            spec_clean_post(old(self).spec_expiry(), now as int, final(self).spec_expiry()),
            final(self).spec_value_capacity() == old(self).spec_value_capacity(),
            match spec_lookup(old(self).spec_swept(now as int), key@) {
                Option::None => r is None && final(self).entries() =~= old(self).spec_swept(
                    now as int,
                ),
                Option::Some(rec) => match rec {
                    Option::None => r == Some(Option::<Vec<V>>::None) && final(self).entries()
                        =~= old(self).spec_swept(now as int),
                    Option::Some(vs) => {
                        let nvs = if rotate {
                            spec_rotate(vs)
                        } else {
                            vs
                        };
                        &&& 1 <= vs.len() <= old(self).spec_value_capacity()
                        &&& (r matches Some(rec2) && rec2 matches Some(rv) && rv@ =~= nvs)
                        &&& final(self).entries() =~= spec_set(
                            old(self).spec_swept(now as int),
                            key@,
                            Some(nvs),
                        )
                    },
                },
            },
    {
        self.clean(now);
        let ghost cleaned = self.entries();
        let found = self.find_index(key);
        match found {
            None => {
                proof {
                    lemma_lookup_none(cleaned, key@);
                }
                None
            },
            Some(idx) => {
                proof {
                    lemma_lookup_at(cleaned, key@, idx as int);
                }
                let mut e = self.data.remove(idx);
                let mut result: Option<Option<Vec<V>>> = Some(None);
                match &mut e.records {
                    None => {},
                    Some(d) => {
                        if rotate && d.len() > 0 {
                            match d.pop_front() {
                                Some(x) => {
                                    d.push_back(x);
                                },
                                None => {},
                            }
                        }
                        let mut vsv: Vec<V> = Vec::new();
                        let mut m: usize = 0;
                        while m < d.len()
                            invariant
                                m <= d@.len(),
                                vsv@ =~= d@.subrange(0, m as int),
                            decreases d@.len() - m,
                        {
                            proof {
                                assert(d@.subrange(0, m + 1) =~= d@.subrange(0, m as int).push(
                                    d@[m as int],
                                ));
                            }
                            vsv.push(d[m]);
                            m = m + 1;
                        }
                        proof {
                            assert(d@.subrange(0, d@.len() as int) =~= d@);
                        }
                        result = Some(Some(vsv));
                    },
                }
                self.data.insert(idx, e);
                proof {
                    match cleaned[idx as int].1 {
                        Option::None => {
                            assert(self.entries() =~= cleaned);
                        },
                        Option::Some(vs) => {
                            let nvs = if rotate {
                                spec_rotate(vs)
                            } else {
                                vs
                            };
                            lemma_set_at(cleaned, key@, Some(nvs), idx as int);
                            assert(self.entries() =~= cleaned.update(idx as int, (key@, Some(nvs))));
                            lemma_entries_wf_ops(cleaned, self.spec_value_capacity());
                        },
                    }
                }
                result
            },
        }
    }
}

/// Appending a fresh key keeps the entries well formed.
pub proof fn lemma_entries_wf_push<V>(
    es: Seq<(Seq<char>, Option<Seq<V>>)>,
    cap: int,
    k: Seq<char>,
    rec: Option<Seq<V>>,
)
    requires
        spec_entries_wf(es, cap),
        forall|m: int| 0 <= m < es.len() ==> es[m].0 != k,
        rec matches Some(vs) ==> 1 <= vs.len() <= cap,
    ensures
        spec_entries_wf(es + seq![(k, rec)], cap),
{
    let es2 = es + seq![(k, rec)];
    assert forall|a: int, b: int| 0 <= a < b < es2.len() implies es2[a].0 != es2[b].0 by {
        if b < es.len() {
            assert(es2[a] == es[a]);
            assert(es2[b] == es[b]);
        } else {
            assert(es2[a] == es[a]);
            assert(es2[b].0 == k);
        }
    }
    assert forall|a: int| 0 <= a < es2.len() implies (#[trigger] es2[a].1 matches Some(vs) ==> 1
        <= vs.len() <= cap) by {
        if a < es.len() {
            assert(es2[a] == es[a]);
        } else {
            assert(es2[a].1 == rec);
        }
    }
}

/// A key absent from the entries is found in an appended entry.
pub proof fn lemma_lookup_append_new<V>(
    es: Seq<(Seq<char>, Option<Seq<V>>)>,
    k: Seq<char>,
    rec: Option<Seq<V>>,
)
    requires
        spec_lookup(es, k) is None,
    ensures
        spec_lookup(es + seq![(k, rec)], k) == Some(rec),
    decreases es.len(),
{
    if es.len() == 0 {
        assert((es + seq![(k, rec)])[0] == (k, rec));
    } else {
        assert((es + seq![(k, rec)])[0] == es[0]);
        assert((es + seq![(k, rec)]).drop_first() =~= es.drop_first() + seq![(k, rec)]);
        lemma_lookup_append_new(es.drop_first(), k, rec);
    }
}

/// A key present in the entries is found with its replaced record.
pub proof fn lemma_lookup_set<V>(
    es: Seq<(Seq<char>, Option<Seq<V>>)>,
    k: Seq<char>,
    rec: Option<Seq<V>>,
)
    requires
        spec_lookup(es, k) is Some,
    ensures
        spec_lookup(spec_set(es, k, rec), k) == Some(rec),
    decreases es.len(),
{
    if es.len() > 0 {
        if es[0].0 == k {
            assert((seq![(k, rec)] + es.drop_first())[0] == (k, rec));
        } else {
            assert((seq![es[0]] + spec_set(es.drop_first(), k, rec))[0] == es[0]);
            assert((seq![es[0]] + spec_set(es.drop_first(), k, rec)).drop_first() =~= spec_set(
                es.drop_first(),
                k,
                rec,
            ));
            lemma_lookup_set(es.drop_first(), k, rec);
        }
    }
}

/// Cache round trip: right after a value is inserted under a key whose
/// list has room, a query for that key finds a list whose front is that
/// value.  A positive insert over a null marker supersedes the marker the
/// same way.
pub proof fn lemma_cache_round_trip<V>(
    es: Seq<(Seq<char>, Option<Seq<V>>)>,
    k: Seq<char>,
    v: V,
    cap: int,
)
    requires
        spec_entries_wf(es, cap),
        cap >= 1,
        (spec_lookup(es, k) matches Some(rec) && rec matches Some(vs) ==> vs.len() < cap),
    ensures
        match spec_lookup(spec_insert_entries(es, k, v, false, cap), k) {
            Option::Some(rec) => rec matches Some(vs2) && vs2.len() >= 1 && vs2[0] == v,
            Option::None => false,
        },
{
    match spec_lookup(es, k) {
        Option::None => {
            lemma_lookup_append_new(es, k, Some(seq![v]));
        },
        Option::Some(rec) => {
            match rec {
                Option::None => {
                    lemma_lookup_set(es, k, Some(seq![v]));
                },
                Option::Some(vs) => {
                    lemma_lookup_set(es, k, Some(seq![v] + vs));
                    assert((seq![v] + vs)[0] == v);
                },
            }
        },
    }
}

/// Negative shadowing: right after a key is marked null, a query for it
/// finds the null marker.
pub proof fn lemma_negative_shadowing<V>(es: Seq<(Seq<char>, Option<Seq<V>>)>, k: Seq<char>)
    ensures
        spec_lookup(
            match spec_lookup(es, k) {
                Option::None => es + seq![(k, Option::<Seq<V>>::None)],
                Option::Some(_) => spec_set(es, k, Option::<Seq<V>>::None),
            },
            k,
        ) == Some(Option::<Seq<V>>::None),
{
    match spec_lookup(es, k) {
        Option::None => {
            lemma_lookup_append_new(es, k, Option::<Seq<V>>::None);
        },
        Option::Some(_) => {
            lemma_lookup_set(es, k, Option::<Seq<V>>::None);
        },
    }
}

/// Cache round trip, second half: a single value inserted into an empty
/// cache is gone again once a sweep has advanced a full lifetime and one
/// bucket width past the insertion (and the sweep lags the clock by at
/// most one wheel turn): the same query then misses.
pub proof fn lemma_cache_expiry<V: Copy>(
    c0: Cache<V>,
    k: Seq<char>,
    v: V,
    ttl: int,
    now: int,
    er: ExpiryRef,
    c1: Cache<V>,
    t2: int,
    c2: Cache<V>,
)
    requires
        c0.wf(),
        c0.entries() =~= Seq::<(Seq<char>, Option<Seq<V>>)>::empty(),
        forall|i: int|
            0 <= i < c0.spec_expiry().spec_buckets().len() ==> #[trigger] c0.spec_expiry()
                .spec_buckets()[i] =~= Seq::<ExpiryRef>::empty(),
        // what `insert` left behind
        er == ExpiryRef::Positive(spec_key_string(er), 0),
        er.spec_key() == k,
        c1.entries() =~= spec_insert_entries(c0.entries(), k, v, false, c0.spec_value_capacity()),
        crate::expiry::spec_add_post(c0.spec_expiry(), now, ttl, er, c1.spec_expiry()),
        // the sweep inside the later query
        c2.entries() =~= c1.spec_swept(t2),
        crate::expiry::spec_clean_post(c1.spec_expiry(), t2, c2.spec_expiry()),
        // timing: a full clamped lifetime and one width have passed, and the
        // wheel has not fallen a whole turn behind
        c0.spec_expiry().spec_start_time() <= c0.spec_expiry().spec_last_cleaned(),
        c0.spec_expiry().spec_last_cleaned() <= now,
        now + c0.spec_expiry().spec_clamp(ttl) + c0.spec_expiry().spec_bucket_seconds() <= t2,
        c0.spec_expiry().spec_slot(t2) - c0.spec_expiry().spec_slot(
            c0.spec_expiry().spec_last_cleaned(),
        ) <= c0.spec_expiry().spec_bucket_count(),
    ensures
        spec_lookup(c2.entries(), k) is None,
{
    let w = c0.spec_expiry();
    let w1 = c1.spec_expiry();
    let out = crate::expiry::spec_clean_result(w1, t2);
    let eb = w.spec_bucket_of(now, ttl);
    // the wheel held nothing, so nothing but the new entry can come out
    crate::expiry::lemma_buckets_count_from_zero(w.spec_buckets(), er);
    crate::expiry::lemma_wheel_delivery(w, er, ttl, now, w1, t2, out);
    assert(crate::expiry::seq_count(out, er) == 1);
    assert forall|i: int| 0 <= i < out.len() implies out[i] == er by {
        crate::expiry::lemma_seq_count_member(out, i);
        if out[i] != er {
            let y = out[i];
            crate::expiry::lemma_buckets_count_from_zero(w.spec_buckets(), y);
            crate::expiry::lemma_buckets_count_update(
                w.spec_buckets(),
                eb,
                w.spec_buckets()[eb].push(er),
                y,
            );
            crate::expiry::lemma_seq_count_push(w.spec_buckets()[eb], er, y);
            assert(w1.spec_count(y) == 0) by {
                assert(w1.spec_buckets() =~= w.spec_buckets().update(
                    eb,
                    w.spec_buckets()[eb].push(er),
                ));
            }
            crate::expiry::lemma_wheel_at_most_once(w1, t2, c2.spec_expiry(), out, y);
        }
    }
    assert(out.len() == 1) by {
        if out.len() == 0 {
            assert(crate::expiry::seq_count(out, er) == 0);
        } else if out.len() > 1 {
            lemma_all_same_count(out, er);
        }
    }
    assert(out =~= seq![er]);
    // the single wheel entry removes the single value and then the key
    let es1 = c1.entries();
    assert(es1 =~= seq![(k, Some(seq![v]))]) by {
        assert(spec_lookup(c0.entries(), k) is None);
    }
    assert(spec_apply_expiry(es1, er) =~= Seq::<(Seq<char>, Option<Seq<V>>)>::empty());
    assert(c2.entries() =~= spec_apply_expiries(es1, out));
    assert(spec_apply_expiries(es1, seq![er]) == spec_apply_expiry(es1, er)) by {
        let rs = seq![er];
        assert(rs.len() == 1);
        assert(rs[0] == er);
        assert(rs.drop_first() =~= Seq::<ExpiryRef>::empty());
        assert(spec_apply_expiries(es1, rs) == spec_apply_expiries(
            spec_apply_expiry(es1, rs[0]),
            rs.drop_first(),
        ));
        assert(spec_apply_expiries(spec_apply_expiry(es1, er), Seq::<ExpiryRef>::empty())
            == spec_apply_expiry(es1, er));
    }
}

/// Cache round trip, timed: a single value inserted into an empty cache is
/// still found by a query whose sweep runs before the clamped lifetime has
/// passed.
pub proof fn lemma_cache_timed_hit<V: Copy>(
    c0: Cache<V>,
    k: Seq<char>,
    v: V,
    ttl: int,
    now: int,
    er: ExpiryRef,
    c1: Cache<V>,
    t2: int,
    c2: Cache<V>,
)
    requires
        c0.wf(),
        c0.entries() =~= Seq::<(Seq<char>, Option<Seq<V>>)>::empty(),
        forall|i: int|
            0 <= i < c0.spec_expiry().spec_buckets().len() ==> #[trigger] c0.spec_expiry()
                .spec_buckets()[i] =~= Seq::<ExpiryRef>::empty(),
        er == ExpiryRef::Positive(spec_key_string(er), 0),
        er.spec_key() == k,
        c1.entries() =~= spec_insert_entries(c0.entries(), k, v, false, c0.spec_value_capacity()),
        crate::expiry::spec_add_post(c0.spec_expiry(), now, ttl, er, c1.spec_expiry()),
        c1.spec_expiry().wf(),
        c2.entries() =~= c1.spec_swept(t2),
        crate::expiry::spec_clean_post(c1.spec_expiry(), t2, c2.spec_expiry()),
        c0.spec_expiry().spec_start_time() <= c0.spec_expiry().spec_last_cleaned(),
        c0.spec_expiry().spec_last_cleaned() <= now,
        c0.spec_expiry().spec_last_cleaned() <= t2,
        t2 <= now + c0.spec_expiry().spec_clamp(ttl),
        c0.spec_expiry().spec_slot(now + c0.spec_expiry().spec_clamp(ttl)) < c0.spec_expiry()
            .spec_slot(c0.spec_expiry().spec_last_cleaned()) + c0.spec_expiry().spec_bucket_count(),
    ensures
        spec_lookup(c2.entries(), k) == Some(Some(seq![v])),
{
    let w = c0.spec_expiry();
    let w1 = c1.spec_expiry();
    let out = crate::expiry::spec_clean_result(w1, t2);
    lemma_timed_sweep_is_empty(c0, ttl, now, er, c1, t2, c2, out);
    let es1 = c1.entries();
    assert(es1 =~= seq![(k, Some(seq![v]))]) by {
        assert(spec_lookup(c0.entries(), k) is None);
    }
    assert(c2.entries() =~= spec_apply_expiries(es1, out));
    assert(c2.entries() =~= es1);
    assert(spec_lookup(es1, k) == Some(Some(seq![v])));
}

/// Negative shadowing, timed: a null marker set in an empty cache is still
/// found by a query whose sweep runs before the clamped lifetime has
/// passed.
pub proof fn lemma_cache_negative_timed<V: Copy>(
    c0: Cache<V>,
    k: Seq<char>,
    ttl: int,
    now: int,
    er: ExpiryRef,
    c1: Cache<V>,
    t2: int,
    c2: Cache<V>,
)
    requires
        c0.wf(),
        c0.entries() =~= Seq::<(Seq<char>, Option<Seq<V>>)>::empty(),
        forall|i: int|
            0 <= i < c0.spec_expiry().spec_buckets().len() ==> #[trigger] c0.spec_expiry()
                .spec_buckets()[i] =~= Seq::<ExpiryRef>::empty(),
        er == ExpiryRef::Negative(spec_key_string(er)),
        er.spec_key() == k,
        c1.entries() =~= (match spec_lookup(c0.entries(), k) {
            Option::None => c0.entries() + seq![(k, Option::<Seq<V>>::None)],
            Option::Some(_) => spec_set(c0.entries(), k, Option::<Seq<V>>::None),
        }),
        crate::expiry::spec_add_post(c0.spec_expiry(), now, ttl, er, c1.spec_expiry()),
        c1.spec_expiry().wf(),
        c2.entries() =~= c1.spec_swept(t2),
        crate::expiry::spec_clean_post(c1.spec_expiry(), t2, c2.spec_expiry()),
        c0.spec_expiry().spec_start_time() <= c0.spec_expiry().spec_last_cleaned(),
        c0.spec_expiry().spec_last_cleaned() <= now,
        c0.spec_expiry().spec_last_cleaned() <= t2,
        t2 <= now + c0.spec_expiry().spec_clamp(ttl),
        c0.spec_expiry().spec_slot(now + c0.spec_expiry().spec_clamp(ttl)) < c0.spec_expiry()
            .spec_slot(c0.spec_expiry().spec_last_cleaned()) + c0.spec_expiry().spec_bucket_count(),
    ensures
        spec_lookup(c2.entries(), k) == Some(Option::<Seq<V>>::None),
{
    let w = c0.spec_expiry();
    let w1 = c1.spec_expiry();
    let out = crate::expiry::spec_clean_result(w1, t2);
    lemma_timed_sweep_is_empty(c0, ttl, now, er, c1, t2, c2, out);
    let es1 = c1.entries();
    assert(es1 =~= seq![(k, Option::<Seq<V>>::None)]) by {
        assert(spec_lookup(c0.entries(), k) is None);
    }
    assert(c2.entries() =~= spec_apply_expiries(es1, out));
    assert(c2.entries() =~= es1);
    assert(spec_lookup(es1, k) == Some(Option::<Seq<V>>::None));
}

/// Before the clamped lifetime has passed, a sweep of the one-entry wheel
/// hands back nothing at all.
proof fn lemma_timed_sweep_is_empty<V: Copy>(
    c0: Cache<V>,
    ttl: int,
    now: int,
    er: ExpiryRef,
    c1: Cache<V>,
    t2: int,
    c2: Cache<V>,
    out: Seq<ExpiryRef>,
)
    requires
        c0.wf(),
        forall|i: int|
            0 <= i < c0.spec_expiry().spec_buckets().len() ==> #[trigger] c0.spec_expiry()
                .spec_buckets()[i] =~= Seq::<ExpiryRef>::empty(),
        crate::expiry::spec_add_post(c0.spec_expiry(), now, ttl, er, c1.spec_expiry()),
        c1.spec_expiry().wf(),
        crate::expiry::spec_clean_post(c1.spec_expiry(), t2, c2.spec_expiry()),
        out == crate::expiry::spec_clean_result(c1.spec_expiry(), t2),
        c0.spec_expiry().spec_start_time() <= c0.spec_expiry().spec_last_cleaned(),
        c0.spec_expiry().spec_last_cleaned() <= now,
        c0.spec_expiry().spec_last_cleaned() <= t2,
        t2 <= now + c0.spec_expiry().spec_clamp(ttl),
        c0.spec_expiry().spec_slot(now + c0.spec_expiry().spec_clamp(ttl)) < c0.spec_expiry()
            .spec_slot(c0.spec_expiry().spec_last_cleaned()) + c0.spec_expiry().spec_bucket_count(),
    ensures
        out =~= Seq::<ExpiryRef>::empty(),
{
    let w = c0.spec_expiry();
    let w1 = c1.spec_expiry();
    let s = w.spec_bucket_seconds();
    let start = w.spec_start_time();
    let slot_e = w.spec_slot(now + w.spec_clamp(ttl));
    crate::expiry::lemma_buckets_count_from_zero(w.spec_buckets(), er);
    crate::expiry::lemma_add_starts_alone(w, now, ttl, er, w1);
    vstd::arithmetic::div_mod::lemma_mod_division_less_than_divisor(
        slot_e,
        w.spec_bucket_count(),
    );
    assert(w1.spec_slot(t2) <= slot_e) by {
        vstd::arithmetic::div_mod::lemma_div_is_ordered(
            t2 - start,
            now + w.spec_clamp(ttl) - start,
            s,
        );
    }
    assert(w1.spec_slot(w1.spec_last_cleaned()) <= slot_e) by {
        vstd::arithmetic::div_mod::lemma_div_is_ordered(
            w.spec_last_cleaned() - start,
            now + w.spec_clamp(ttl) - start,
            s,
        );
        assert(now <= now + w.spec_clamp(ttl)) by {
            assert(w.spec_bucket_count() * w.spec_bucket_seconds() - 1 >= s) by (nonlinear_arith)
                requires
                    w.spec_bucket_count() >= 2,
                    w.spec_bucket_seconds() >= 1,
                    s == w.spec_bucket_seconds(),
            ;
        }
    }
    crate::expiry::lemma_step_not_swept(w1, t2, c2.spec_expiry(), out, er, slot_e);
    assert forall|i: int| 0 <= i < out.len() implies out[i] == er by {
        crate::expiry::lemma_seq_count_member(out, i);
        if out[i] != er {
            let y = out[i];
            crate::expiry::lemma_buckets_count_from_zero(w.spec_buckets(), y);
            crate::expiry::lemma_buckets_count_update(
                w.spec_buckets(),
                w.spec_bucket_of(now, ttl),
                w.spec_buckets()[w.spec_bucket_of(now, ttl)].push(er),
                y,
            );
            crate::expiry::lemma_seq_count_push(
                w.spec_buckets()[w.spec_bucket_of(now, ttl)],
                er,
                y,
            );
            assert(w1.spec_count(y) == 0) by {
                assert(w1.spec_buckets() =~= w.spec_buckets().update(
                    w.spec_bucket_of(now, ttl),
                    w.spec_buckets()[w.spec_bucket_of(now, ttl)].push(er),
                ));
            }
            crate::expiry::lemma_wheel_at_most_once(w1, t2, c2.spec_expiry(), out, y);
        }
    }
    if out.len() > 0 {
        assert(out[0] == er);
        crate::expiry::lemma_seq_count_member(out, 0);
    }
}

/// The key a wheel entry carries, as the string it was built with.
pub open spec fn spec_key_string(er: ExpiryRef) -> String {
    match er {
        ExpiryRef::Positive(s, _) => s,
        ExpiryRef::Negative(s) => s,
    }
}

/// A sequence of equal elements counts its length for that element.
proof fn lemma_all_same_count<T>(s: Seq<T>, x: T)
    requires
        forall|i: int| 0 <= i < s.len() ==> s[i] == x,
    ensures
        crate::expiry::seq_count(s, x) == s.len(),
    decreases s.len(),
{
    if s.len() > 0 {
        assert forall|i: int| 0 <= i < s.drop_first().len() implies s.drop_first()[i] == x by {
            assert(s.drop_first()[i] == s[i + 1]);
        }
        lemma_all_same_count(s.drop_first(), x);
    }
}

/// The well-formedness of entries survives removal and record updates that
/// keep lists non-empty and within capacity.
pub proof fn lemma_entries_wf_ops<V>(es: Seq<(Seq<char>, Option<Seq<V>>)>, cap: int)
    requires
        spec_entries_wf(es, cap),
    ensures
        forall|i: int| 0 <= i < es.len() ==> spec_entries_wf(#[trigger] es.remove(i), cap),
        forall|i: int, rec: Option<Seq<V>>|
            0 <= i < es.len() && (rec matches Some(vs) ==> 1 <= vs.len() <= cap)
                ==> spec_entries_wf(#[trigger] es.update(i, (es[i].0, rec)), cap),
{
    assert forall|i: int| 0 <= i < es.len() implies spec_entries_wf(#[trigger] es.remove(i), cap) by {
        let es2 = es.remove(i);
        assert forall|a: int, b: int| 0 <= a < b < es2.len() implies es2[a].0 != es2[b].0 by {
            let a0 = if a < i {
                a
            } else {
                a + 1
            };
            let b0 = if b < i {
                b
            } else {
                b + 1
            };
            assert(es2[a] == es[a0]);
            assert(es2[b] == es[b0]);
        }
        assert forall|a: int| 0 <= a < es2.len() implies (#[trigger] es2[a].1 matches Some(vs)
            ==> 1 <= vs.len() <= cap) by {
            let a0 = if a < i {
                a
            } else {
                a + 1
            };
            assert(es2[a] == es[a0]);
        }
    }
    assert forall|i: int, rec: Option<Seq<V>>|
        0 <= i < es.len() && (rec matches Some(vs) ==> 1 <= vs.len() <= cap) implies spec_entries_wf(
        #[trigger] es.update(i, (es[i].0, rec)),
        cap,
    ) by {
        let es2 = es.update(i, (es[i].0, rec));
        assert forall|a: int, b: int| 0 <= a < b < es2.len() implies es2[a].0 != es2[b].0 by {
            assert(es2[a].0 == es[a].0);
            assert(es2[b].0 == es[b].0);
        }
        assert forall|a: int| 0 <= a < es2.len() implies (#[trigger] es2[a].1 matches Some(vs)
            ==> 1 <= vs.len() <= cap) by {
            if a != i {
                assert(es2[a] == es[a]);
            }
        }
    }
}

} // verus!
