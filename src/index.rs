//! An ordered index from composite keys to lists of match identifiers.
//!
//! Every index of the store is one of these: a key is a triple of
//! identifiers (unused trailing parts are zero), kept in lexicographic
//! order, and each key holds the identifiers recorded under it in the
//! order they were recorded.

use vstd::prelude::*;

verus! {

/// A composite key: an outer identifier, a middle one and an inner one.
pub type Key = (usize, usize, usize);

/// A key with the list of identifiers recorded under it in one step.
pub type Posting = (Key, Seq<usize>);

pub open spec fn key_lt(a: Key, b: Key) -> bool {
    a.0 < b.0 || (a.0 == b.0 && (a.1 < b.1 || (a.1 == b.1 && a.2 < b.2)))
}

/// Whether each part of `k` lies between the matching parts of `lo` and `hi`.
pub open spec fn in_box(k: Key, lo: Key, hi: Key) -> bool {
    lo.0 <= k.0 <= hi.0 && lo.1 <= k.1 <= hi.1 && lo.2 <= k.2 <= hi.2
}

/// What two successive recordings leave under one key: `None` where a
/// key was never touched, the concatenation where both touched it.
pub open spec fn combine(a: Option<Seq<usize>>, b: Option<Seq<usize>>) -> Option<Seq<usize>> {
    match a {
        None => b,
        Some(x) => match b {
            None => Some(x),
            Some(y) => Some(x + y),
        },
    }
}

/// What a sequence of postings records under the key `k`.
pub open spec fn gather(ps: Seq<Posting>, k: Key) -> Option<Seq<usize>>
    decreases ps.len(),
{
    if ps.len() == 0 {
        None
    } else {
        combine(
            gather(ps.drop_last(), k),
            if ps.last().0 == k {
                Some(ps.last().1)
            } else {
                None
            },
        )
    }
}

/// Number of identifiers that a sequence of postings records.
pub open spec fn posting_total(ps: Seq<Posting>) -> nat
    decreases ps.len(),
{
    if ps.len() == 0 {
        0
    } else {
        posting_total(ps.drop_last()) + ps.last().1.len()
    }
}

pub open spec fn sum_lens(s: Seq<Seq<usize>>) -> nat
    decreases s.len(),
{
    if s.len() == 0 {
        0
    } else {
        sum_lens(s.drop_last()) + s.last().len()
    }
}

/// Whether every identifier of `s` lies in `1..=n`.
pub open spec fn seq_within(s: Seq<usize>, n: nat) -> bool {
    forall|j: int| 0 <= j < s.len() ==> 1 <= #[trigger] s[j] <= n
}

/// Whether every identifier that the postings record lies in `1..=n`.
pub open spec fn postings_within(ps: Seq<Posting>, n: nat) -> bool {
    forall|i: int| 0 <= i < ps.len() ==> seq_within(#[trigger] ps[i].1, n)
}

/// The concatenation, in key order, of the lists whose key lies in the box.
pub open spec fn select_ids(keys: Seq<Key>, lists: Seq<Seq<usize>>, lo: Key, hi: Key) -> Seq<usize>
    decreases keys.len(),
{
    if keys.len() == 0 || lists.len() == 0 {
        seq![]
    } else if in_box(keys.last(), lo, hi) {
        select_ids(keys.drop_last(), lists.drop_last(), lo, hi) + lists.last()
    } else {
        select_ids(keys.drop_last(), lists.drop_last(), lo, hi)
    }
}

pub proof fn lemma_combine_assoc(a: Option<Seq<usize>>, b: Option<Seq<usize>>, c: Option<Seq<usize>>)
    ensures
        combine(combine(a, b), c) == combine(a, combine(b, c)),
{
    if a is Some && b is Some && c is Some {
        assert(a->0 + b->0 + c->0 =~= a->0 + (b->0 + c->0));
    }
}

pub proof fn lemma_gather_concat(ps: Seq<Posting>, qs: Seq<Posting>, k: Key)
    ensures
        gather(ps + qs, k) == combine(gather(ps, k), gather(qs, k)),
    decreases qs.len(),
{
    if qs.len() == 0 {
        assert(ps + qs =~= ps);
        match gather(ps, k) {
            None => {},
            Some(x) => {},
        }
    } else {
        let last = qs.last();
        assert((ps + qs).drop_last() =~= ps + qs.drop_last());
        lemma_gather_concat(ps, qs.drop_last(), k);
        let piece = if last.0 == k {
            Some(last.1)
        } else {
            None::<Seq<usize>>
        };
        lemma_combine_assoc(gather(ps, k), gather(qs.drop_last(), k), piece);
    }
}

pub proof fn lemma_posting_total_concat(ps: Seq<Posting>, qs: Seq<Posting>)
    ensures
        posting_total(ps + qs) == posting_total(ps) + posting_total(qs),
    decreases qs.len(),
{
    if qs.len() == 0 {
        assert(ps + qs =~= ps);
    } else {
        assert((ps + qs).drop_last() =~= ps + qs.drop_last());
        lemma_posting_total_concat(ps, qs.drop_last());
    }
}

proof fn lemma_sum_lens_concat(a: Seq<Seq<usize>>, b: Seq<Seq<usize>>)
    ensures
        sum_lens(a + b) == sum_lens(a) + sum_lens(b),
    decreases b.len(),
{
    if b.len() == 0 {
        assert(a + b =~= a);
    } else {
        assert((a + b).drop_last() =~= a + b.drop_last());
        lemma_sum_lens_concat(a, b.drop_last());
    }
}

proof fn lemma_sum_lens_split(s: Seq<Seq<usize>>, i: int)
    requires
        0 <= i < s.len(),
    ensures
        sum_lens(s) == sum_lens(s.subrange(0, i)) + s[i].len() + sum_lens(s.subrange(i + 1, s.len() as int)),
{
    let a = s.subrange(0, i);
    let b = s.subrange(i + 1, s.len() as int);
    assert(s =~= a + seq![s[i]] + b);
    lemma_sum_lens_concat(a + seq![s[i]], b);
    lemma_sum_lens_concat(a, seq![s[i]]);
    assert(seq![s[i]].drop_last() =~= Seq::<Seq<usize>>::empty());
    assert(sum_lens(seq![s[i]]) == s[i].len()) by {
        assert(sum_lens(Seq::<Seq<usize>>::empty()) == 0);
        assert(seq![s[i]].last() == s[i]);
    }
}

proof fn lemma_sum_lens_update(s: Seq<Seq<usize>>, i: int, x: Seq<usize>)
    requires
        0 <= i < s.len(),
    ensures
        sum_lens(s.update(i, x)) + s[i].len() == sum_lens(s) + x.len(),
{
    let t = s.update(i, x);
    lemma_sum_lens_split(s, i);
    lemma_sum_lens_split(t, i);
    assert(t.subrange(0, i) =~= s.subrange(0, i));
    assert(t.subrange(i + 1, t.len() as int) =~= s.subrange(i + 1, s.len() as int));
}

proof fn lemma_sum_lens_insert(s: Seq<Seq<usize>>, i: int, x: Seq<usize>)
    requires
        0 <= i <= s.len(),
    ensures
        sum_lens(s.insert(i, x)) == sum_lens(s) + x.len(),
{
    let t = s.insert(i, x);
    lemma_sum_lens_split(t, i);
    assert(t.subrange(0, i) =~= s.subrange(0, i));
    assert(t.subrange(i + 1, t.len() as int) =~= s.subrange(i, s.len() as int));
    lemma_sum_lens_concat(s.subrange(0, i), s.subrange(i, s.len() as int));
    assert(s =~= s.subrange(0, i) + s.subrange(i, s.len() as int));
}

/// A box whose lists are all empty selects nothing.
pub proof fn lemma_select_empty(keys: Seq<Key>, lists: Seq<Seq<usize>>, lo: Key, hi: Key)
    requires
        keys.len() == lists.len(),
        forall|i: int| 0 <= i < keys.len() && in_box(#[trigger] keys[i], lo, hi) ==> lists[i].len() == 0,
    ensures
        select_ids(keys, lists, lo, hi) == Seq::<usize>::empty(),
    decreases keys.len(),
{
    if keys.len() > 0 {
        let n = keys.len() - 1;
        assert(in_box(keys[n], lo, hi) ==> lists[n].len() == 0);
        assert forall|i: int|
            0 <= i < keys.drop_last().len() && in_box(#[trigger] keys.drop_last()[i], lo, hi) implies lists.drop_last()[i].len() == 0 by {
            assert(keys.drop_last()[i] == keys[i]);
        }
        lemma_select_empty(keys.drop_last(), lists.drop_last(), lo, hi);
        if in_box(keys.last(), lo, hi) {
            assert(lists.last() =~= Seq::<usize>::empty());
            assert(select_ids(keys, lists, lo, hi) =~= Seq::<usize>::empty());
        }
    }
}

/// Where exactly one key equals `k`, the box of `k` alone selects its list.
pub proof fn lemma_select_unique(keys: Seq<Key>, lists: Seq<Seq<usize>>, k: Key, i: int)
    requires
        keys.len() == lists.len(),
        0 <= i < keys.len(),
        keys[i] == k,
        forall|j: int| 0 <= j < keys.len() && j != i ==> #[trigger] keys[j] != k,
    ensures
        select_ids(keys, lists, k, k) == lists[i],
    decreases keys.len(),
{
    let n = keys.len() - 1;
    if i == n {
        assert forall|j: int|
            0 <= j < keys.drop_last().len() && in_box(#[trigger] keys.drop_last()[j], k, k) implies lists.drop_last()[j].len() == 0 by {
            assert(keys.drop_last()[j] == keys[j]);
            assert(keys[j] != k);
        }
        lemma_select_empty(keys.drop_last(), lists.drop_last(), k, k);
        assert(Seq::<usize>::empty() + lists[i] =~= lists[i]);
    } else {
        assert(keys[n] != k);
        assert forall|j: int| 0 <= j < keys.drop_last().len() && j != i implies #[trigger] keys.drop_last()[j] != k by {
            assert(keys.drop_last()[j] == keys[j]);
        }
        lemma_select_unique(keys.drop_last(), lists.drop_last(), k, i);
    }
}

/// Postings of which one has key `k` record something under `k`.
pub proof fn lemma_gather_some(ps: Seq<Posting>, k: Key, i: int)
    requires
        0 <= i < ps.len(),
        ps[i].0 == k,
    ensures
        gather(ps, k) is Some,
    decreases ps.len(),
{
    if i < ps.len() - 1 {
        assert(ps.drop_last()[i] == ps[i]);
        lemma_gather_some(ps.drop_last(), k, i);
    }
}

/// Postings of which none has key `k` record nothing under `k`.
pub proof fn lemma_gather_none(ps: Seq<Posting>, k: Key)
    requires
        forall|i: int| 0 <= i < ps.len() ==> (#[trigger] ps[i]).0 != k,
    ensures
        gather(ps, k) is None,
    decreases ps.len(),
{
    if ps.len() > 0 {
        assert(ps[ps.len() - 1].0 != k);
        assert forall|i: int| 0 <= i < ps.drop_last().len() implies (#[trigger] ps.drop_last()[i]).0 != k by {
            assert(ps.drop_last()[i] == ps[i]);
        }
        lemma_gather_none(ps.drop_last(), k);
    }
}

/// Postings that record nothing under `k` leave `k` untouched or empty.
pub proof fn lemma_gather_empty(ps: Seq<Posting>, k: Key)
    requires
        forall|i: int| 0 <= i < ps.len() && (#[trigger] ps[i]).0 == k ==> ps[i].1.len() == 0,
    ensures
        gather(ps, k) matches Some(s) ==> s.len() == 0,
    decreases ps.len(),
{
    if ps.len() > 0 {
        assert(ps[ps.len() - 1].0 == k ==> ps[ps.len() - 1].1.len() == 0);
        assert forall|i: int| 0 <= i < ps.drop_last().len() && (#[trigger] ps.drop_last()[i]).0 == k implies ps.drop_last()[i].1.len() == 0 by {
            assert(ps.drop_last()[i] == ps[i]);
        }
        lemma_gather_empty(ps.drop_last(), k);
    }
}

fn key_less(a: Key, b: Key) -> (r: bool)
    ensures
        r == key_lt(a, b),
{
    a.0 < b.0 || (a.0 == b.0 && (a.1 < b.1 || (a.1 == b.1 && a.2 < b.2)))
}

fn key_eq(a: Key, b: Key) -> (r: bool)
    ensures
        r == (a == b),
{
    a.0 == b.0 && a.1 == b.1 && a.2 == b.2
}

fn key_in_box(k: Key, lo: Key, hi: Key) -> (r: bool)
    ensures
        r == in_box(k, lo, hi),
{
    lo.0 <= k.0 && k.0 <= hi.0 && lo.1 <= k.1 && k.1 <= hi.1 && lo.2 <= k.2 && k.2 <= hi.2
}

/// Lists of identifiers under composite keys, keys in ascending order.
pub struct KeyedIndex {
    keys: Vec<Key>,
    lists: Vec<Vec<usize>>,
}

impl KeyedIndex {
    /// The keys, in ascending order.
    pub closed spec fn key_seq(&self) -> Seq<Key> {
        self.keys@
    }

    /// The identifier lists, one per key, in the order of the keys.
    pub closed spec fn list_seq(&self) -> Seq<Seq<usize>> {
        self.lists@.map_values(|v: Vec<usize>| v@)
    }

    pub open spec fn wf(&self) -> bool {
        &&& self.key_seq().len() == self.list_seq().len()
        &&& forall|i: int, j: int|
            0 <= i < j < self.key_seq().len() ==> key_lt(
                #[trigger] self.key_seq()[i],
                #[trigger] self.key_seq()[j],
            )
    }

    pub open spec fn has(&self, k: Key) -> bool {
        exists|i: int| 0 <= i < self.key_seq().len() && self.key_seq()[i] == k
    }

    /// The list under `k`, or `None` where `k` is not a key.
    pub open spec fn get(&self, k: Key) -> Option<Seq<usize>> {
        if self.has(k) {
            Some(
                self.list_seq()[choose|i: int| 0 <= i < self.key_seq().len() && self.key_seq()[i] == k],
            )
        } else {
            None
        }
    }

    /// Number of identifiers over all keys.
    pub open spec fn total(&self) -> nat {
        sum_lens(self.list_seq())
    }

    /// The concatenation, in key order, of the lists whose key lies in the box.
    pub open spec fn selected(&self, lo: Key, hi: Key) -> Seq<usize> {
        select_ids(self.key_seq(), self.list_seq(), lo, hi)
    }

    /// Whether every identifier held lies in `1..=n`.
    pub open spec fn ids_within(&self, n: nat) -> bool {
        forall|i: int| 0 <= i < self.list_seq().len() ==> seq_within(#[trigger] self.list_seq()[i], n)
    }

    pub open spec fn any_in_box(&self, lo: Key, hi: Key) -> bool {
        exists|i: int| 0 <= i < self.key_seq().len() && in_box(#[trigger] self.key_seq()[i], lo, hi)
    }

    pub proof fn lemma_within_grow(&self, a: nat, b: nat)
        requires
            self.ids_within(a),
            a <= b,
        ensures
            self.ids_within(b),
    {
        assert forall|i: int| 0 <= i < self.list_seq().len() implies seq_within(#[trigger] self.list_seq()[i], b) by {
            assert(seq_within(self.list_seq()[i], a));
        }
    }

    pub proof fn lemma_get_at(&self, i: int)
        requires
            self.wf(),
            0 <= i < self.key_seq().len(),
        ensures
            self.get(self.key_seq()[i]) == Some(self.list_seq()[i]),
    {
        let k = self.key_seq()[i];
        let j = choose|j: int| 0 <= j < self.key_seq().len() && self.key_seq()[j] == k;
        assert(self.has(k));
        if j < i {
            assert(key_lt(self.key_seq()[j], self.key_seq()[i]));
        } else if i < j {
            assert(key_lt(self.key_seq()[i], self.key_seq()[j]));
        }
    }

    /// A key that the index holds lies in every box around it.
    pub proof fn lemma_held_in_box(&self, k: Key, lo: Key, hi: Key)
        requires
            self.get(k) is Some,
            in_box(k, lo, hi),
        ensures
            self.any_in_box(lo, hi),
    {
        let i = choose|i: int| 0 <= i < self.key_seq().len() && self.key_seq()[i] == k;
        assert(in_box(self.key_seq()[i], lo, hi));
    }

    /// The box of the single key `k` selects the list that `k` holds.
    pub proof fn lemma_single_box_held(&self, k: Key)
        requires
            self.wf(),
            self.get(k) is Some,
        ensures
            self.selected(k, k) == self.get(k)->0,
    {
        let i = choose|i: int| 0 <= i < self.key_seq().len() && self.key_seq()[i] == k;
        self.lemma_get_at(i);
        assert forall|j: int| 0 <= j < self.key_seq().len() && j != i implies #[trigger] self.key_seq()[j] != k by {
            if j < i {
                assert(key_lt(self.key_seq()[j], self.key_seq()[i]));
            } else {
                assert(key_lt(self.key_seq()[i], self.key_seq()[j]));
            }
        }
        lemma_select_unique(self.key_seq(), self.list_seq(), k, i);
    }

    /// The box of the single key `k` selects nothing where `k` holds nothing.
    pub proof fn lemma_single_box_empty(&self, k: Key)
        requires
            self.wf(),
            self.get(k) matches Some(s) ==> s.len() == 0,
        ensures
            self.selected(k, k) == Seq::<usize>::empty(),
    {
        assert forall|i: int|
            0 <= i < self.key_seq().len() && in_box(#[trigger] self.key_seq()[i], k, k) implies self.list_seq()[i].len() == 0 by {
            assert(self.key_seq()[i] == k);
            self.lemma_get_at(i);
        }
        lemma_select_empty(self.key_seq(), self.list_seq(), k, k);
    }

    pub fn new() -> (r: Self)
        ensures
            r.wf(),
            r.key_seq().len() == 0,
            r.total() == 0,
            forall|k: Key| r.get(k) is None,
            forall|n: nat| #[trigger] r.ids_within(n),
    {
        let r = KeyedIndex { keys: Vec::new(), lists: Vec::new() };
        assert(r.list_seq() =~= Seq::<Seq<usize>>::empty());
        r
    }

    /// Records `ids` after what `k` already holds, adding `k` where it is new.
    pub fn append(&mut self, k: Key, ids: &Vec<usize>)
        requires
            old(self).wf(),
        ensures
            final(self).wf(),
            forall|q: Key|
                #[trigger] final(self).get(q) == if q == k {
                    combine(old(self).get(k), Some(ids@))
                } else {
                    old(self).get(q)
                },
            final(self).total() == old(self).total() + ids@.len(),
            forall|n: nat|
                old(self).ids_within(n) && seq_within(ids@, n) ==> #[trigger] final(self).ids_within(n),
    {
        let n = self.keys.len();
        let mut i: usize = 0;
        let mut done = false;
        while !done && i < n
            invariant
                n == self.keys@.len(),
                i <= n,
                forall|j: int| 0 <= j < i ==> key_lt(#[trigger] self.keys@[j], k),
                done ==> i < n && !key_lt(self.keys@[i as int], k),
            decreases n - i + (if done { 0int } else { 1int }),
        {
            if key_less(self.keys[i], k) {
                i = i + 1;
            } else {
                done = true;
            }
        }
        let ghost old_keys = self.key_seq();
        let ghost old_lists = self.list_seq();
        if i < n && key_eq(self.keys[i], k) {
            let mut cur: Vec<usize> = Vec::new();
            std::mem::swap(&mut self.lists[i], &mut cur);
            let ghost start = cur@;
            assert(start == old_lists[i as int]);
            let mut j: usize = 0;
            while j < ids.len()
                invariant
                    j <= ids@.len(),
                    cur@ == start + ids@.subrange(0, j as int),
                decreases ids@.len() - j,
            {
                cur.push(ids[j]);
                j = j + 1;
                assert(cur@ =~= start + ids@.subrange(0, j as int));
            }
            assert(ids@.subrange(0, ids@.len() as int) =~= ids@);
            std::mem::swap(&mut self.lists[i], &mut cur);
            proof {
                assert(self.key_seq() == old_keys);
                assert(self.list_seq() =~= old_lists.update(i as int, start + ids@));
                lemma_sum_lens_update(old_lists, i as int, start + ids@);
                assert forall|b: nat|
                    old(self).ids_within(b) && seq_within(ids@, b) implies #[trigger] self.ids_within(b) by {
                    assert forall|a: int| 0 <= a < self.list_seq().len() implies seq_within(
                        #[trigger] self.list_seq()[a],
                        b,
                    ) by {
                        if a == i {
                            assert(seq_within(old_lists[a], b));
                            assert forall|j: int| 0 <= j < (start + ids@).len() implies 1 <= #[trigger] (
                            start + ids@)[j] <= b by {
                                if j < start.len() {
                                    assert((start + ids@)[j] == start[j]);
                                } else {
                                    assert((start + ids@)[j] == ids@[j - start.len()]);
                                }
                            }
                        } else {
                            assert(seq_within(old_lists[a], b));
                        }
                    }
                }
                self.lemma_get_at(i as int);
                assert forall|q: Key| #[trigger] self.get(q) == if q == k {
                    combine(old(self).get(k), Some(ids@))
                } else {
                    old(self).get(q)
                } by {
                    old(self).lemma_get_at(i as int);
                    if q != k {
                        if old(self).has(q) {
                            let jq = choose|j: int| 0 <= j < old_keys.len() && old_keys[j] == q;
                            old(self).lemma_get_at(jq);
                            self.lemma_get_at(jq);
                        }
                    }
                }
            }
        } else {
            proof {
                if i < n {
                    assert(key_lt(k, self.keys@[i as int]));
                }
            }
            self.keys.insert(i, k);
            let mut fresh: Vec<usize> = Vec::new();
            let mut j: usize = 0;
            while j < ids.len()
                invariant
                    j <= ids@.len(),
                    fresh@ == ids@.subrange(0, j as int),
                decreases ids@.len() - j,
            {
                fresh.push(ids[j]);
                j = j + 1;
                assert(fresh@ =~= ids@.subrange(0, j as int));
            }
            assert(ids@.subrange(0, ids@.len() as int) =~= ids@);
            self.lists.insert(i, fresh);
            proof {
                assert(self.key_seq() =~= old_keys.insert(i as int, k));
                assert(self.list_seq() =~= old_lists.insert(i as int, ids@));
                lemma_sum_lens_insert(old_lists, i as int, ids@);
                assert forall|b: nat|
                    old(self).ids_within(b) && seq_within(ids@, b) implies #[trigger] self.ids_within(b) by {
                    assert forall|a: int| 0 <= a < self.list_seq().len() implies seq_within(
                        #[trigger] self.list_seq()[a],
                        b,
                    ) by {
                        if a < i {
                            assert(seq_within(old_lists[a], b));
                        } else if a > i {
                            assert(seq_within(old_lists[a - 1], b));
                        }
                    }
                }
                assert forall|a: int, b: int|
                    0 <= a < b < self.key_seq().len() implies key_lt(
                    #[trigger] self.key_seq()[a],
                    #[trigger] self.key_seq()[b],
                ) by {
                    if b < i {
                    } else if a < i && b == i {
                    } else if a < i {
                        assert(self.key_seq()[b] == old_keys[b - 1]);
                    } else if a == i {
                        assert(self.key_seq()[b] == old_keys[b - 1]);
                        assert(!key_lt(old_keys[i as int], k));
                        if b - 1 > i {
                            assert(key_lt(old_keys[i as int], old_keys[b - 1]));
                        }
                    } else {
                        assert(self.key_seq()[a] == old_keys[a - 1]);
                        assert(self.key_seq()[b] == old_keys[b - 1]);
                    }
                }
                assert(!old(self).has(k)) by {
                    if old(self).has(k) {
                        let jk = choose|j: int| 0 <= j < old_keys.len() && old_keys[j] == k;
                        if jk >= i {
                            if jk > i {
                                assert(key_lt(old_keys[i as int], old_keys[jk]));
                            }
                        }
                    }
                }
                self.lemma_get_at(i as int);
                assert forall|q: Key| #[trigger] self.get(q) == if q == k {
                    combine(old(self).get(k), Some(ids@))
                } else {
                    old(self).get(q)
                } by {
                    if q != k {
                        if old(self).has(q) {
                            let jq = choose|j: int| 0 <= j < old_keys.len() && old_keys[j] == q;
                            old(self).lemma_get_at(jq);
                            if jq < i {
                                self.lemma_get_at(jq);
                            } else {
                                self.lemma_get_at(jq + 1);
                            }
                        } else if self.has(q) {
                            let jq = choose|j: int| 0 <= j < self.key_seq().len() && self.key_seq()[j] == q;
                            if jq < i {
                                assert(old_keys[jq] == q);
                            } else if jq > i {
                                assert(old_keys[jq - 1] == q);
                            }
                        }
                    }
                }
            }
        }
    }

    /// Records every posting, in order.
    pub fn append_all(&mut self, ps: &Vec<(Key, Vec<usize>)>)
        requires
            old(self).wf(),
        ensures
            final(self).wf(),
            forall|q: Key|
                #[trigger] final(self).get(q) == combine(
                    old(self).get(q),
                    gather(postings_view(ps@), q),
                ),
            final(self).total() == old(self).total() + posting_total(postings_view(ps@)),
            forall|n: nat|
                old(self).ids_within(n) && postings_within(postings_view(ps@), n)
                    ==> #[trigger] final(self).ids_within(n),
    {
        let mut i: usize = 0;
        while i < ps.len()
            invariant
                i <= ps@.len(),
                self.wf(),
                forall|q: Key|
                    #[trigger] self.get(q) == combine(
                        old(self).get(q),
                        gather(postings_view(ps@).subrange(0, i as int), q),
                    ),
                self.total() == old(self).total() + posting_total(
                    postings_view(ps@).subrange(0, i as int),
                ),
                forall|n: nat|
                    old(self).ids_within(n) && postings_within(postings_view(ps@), n)
                        ==> #[trigger] self.ids_within(n),
            decreases ps@.len() - i,
        {
            let ghost before = *self;
            let ghost pv = postings_view(ps@);
            self.append(ps[i].0, &ps[i].1);
            proof {
                assert forall|n: nat|
                    old(self).ids_within(n) && postings_within(pv, n) implies #[trigger] self.ids_within(n) by {
                    assert(seq_within(pv[i as int].1, n));
                    assert(before.ids_within(n));
                }
                assert(pv.subrange(0, i + 1).drop_last() =~= pv.subrange(0, i as int));
                assert(pv.subrange(0, i + 1).last() == pv[i as int]);
                assert forall|q: Key|
                    #[trigger] self.get(q) == combine(
                        old(self).get(q),
                        gather(pv.subrange(0, i + 1), q),
                    ) by {
                    let piece = if pv[i as int].0 == q {
                        Some(pv[i as int].1)
                    } else {
                        None::<Seq<usize>>
                    };
                    assert(before.get(q) == combine(
                        old(self).get(q),
                        gather(pv.subrange(0, i as int), q),
                    ));
                    lemma_combine_assoc(old(self).get(q), gather(pv.subrange(0, i as int), q), piece);
                }
            }
            i = i + 1;
        }
        assert(postings_view(ps@).subrange(0, ps@.len() as int) =~= postings_view(ps@));
    }

    /// The identifiers of every key in the box, keys in ascending order.
    pub fn select(&self, lo: Key, hi: Key) -> (r: Vec<usize>)
        requires
            self.wf(),
        ensures
            r@ == self.selected(lo, hi),
            forall|n: nat| #[trigger] self.ids_within(n) ==> seq_within(r@, n),
    {
        let n = self.keys.len();
        let mut r: Vec<usize> = Vec::new();
        let mut i: usize = 0;
        while i < n
            invariant
                self.wf(),
                n == self.key_seq().len(),
                i <= n,
                r@ == select_ids(
                    self.key_seq().subrange(0, i as int),
                    self.list_seq().subrange(0, i as int),
                    lo,
                    hi,
                ),
                forall|b: nat| #[trigger] self.ids_within(b) ==> seq_within(r@, b),
            decreases n - i,
        {
            let ghost before = r@;
            proof {
                assert(self.key_seq().subrange(0, i + 1).drop_last() =~= self.key_seq().subrange(0, i as int));
                assert(self.list_seq().subrange(0, i + 1).drop_last() =~= self.list_seq().subrange(0, i as int));
            }
            if key_in_box(self.keys[i], lo, hi) {
                let l = &self.lists[i];
                assert(self.list_seq()[i as int] == l@);
                let mut j: usize = 0;
                while j < l.len()
                    invariant
                        j <= l@.len(),
                        r@ == before + l@.subrange(0, j as int),
                        l@ == self.list_seq()[i as int],
                        i < self.list_seq().len(),
                        forall|b: nat| #[trigger] self.ids_within(b) ==> seq_within(r@, b),
                    decreases l@.len() - j,
                {
                    proof {
                        assert forall|b: nat| #[trigger] self.ids_within(b) implies seq_within(r@.push(l@[j as int]), b) by {
                            assert(seq_within(self.list_seq()[i as int], b));
                            assert(seq_within(r@, b));
                        }
                    }
                    r.push(l[j]);
                    j = j + 1;
                    assert(r@ =~= before + l@.subrange(0, j as int));
                }
                assert(l@.subrange(0, l@.len() as int) =~= l@);
                assert(self.list_seq()[i as int] == l@);
            }
            i = i + 1;
        }
        assert(self.key_seq().subrange(0, n as int) =~= self.key_seq());
        assert(self.list_seq().subrange(0, n as int) =~= self.list_seq());
        r
    }

    /// Whether the identifiers held number exactly `target`.
    pub fn total_is(&self, target: usize) -> (r: bool)
        requires
            self.wf(),
        ensures
            r == (self.total() == target),
    {
        let n = self.lists.len();
        let mut sum: usize = 0;
        let mut i: usize = 0;
        while i < n
            invariant
                n == self.list_seq().len(),
                i <= n,
                sum == sum_lens(self.list_seq().subrange(0, i as int)),
                sum <= target,
            decreases n - i,
        {
            proof {
                assert(self.list_seq().subrange(0, i + 1).drop_last() =~= self.list_seq().subrange(0, i as int));
                lemma_sum_lens_concat(self.list_seq().subrange(0, i + 1), self.list_seq().subrange(i + 1, n as int));
                assert(self.list_seq() =~= self.list_seq().subrange(0, i + 1) + self.list_seq().subrange(i + 1, n as int));
            }
            let len = self.lists[i].len();
            if len > target - sum {
                return false;
            }
            sum = sum + len;
            i = i + 1;
        }
        assert(self.list_seq().subrange(0, n as int) =~= self.list_seq());
        sum == target
    }

    /// Whether some key lies in the box.
    pub fn any_in(&self, lo: Key, hi: Key) -> (r: bool)
        requires
            self.wf(),
        ensures
            r == self.any_in_box(lo, hi),
    {
        let n = self.keys.len();
        let mut i: usize = 0;
        while i < n
            invariant
                n == self.key_seq().len(),
                i <= n,
                forall|j: int| 0 <= j < i ==> !in_box(#[trigger] self.key_seq()[j], lo, hi),
            decreases n - i,
        {
            if key_in_box(self.keys[i], lo, hi) {
                return true;
            }
            i = i + 1;
        }
        false
    }
}

/// The postings that a vector of keys and identifier vectors holds.
pub open spec fn postings_view(ps: Seq<(Key, Vec<usize>)>) -> Seq<Posting> {
    ps.map_values(|p: (Key, Vec<usize>)| (p.0, p.1@))
}

} // verus!
