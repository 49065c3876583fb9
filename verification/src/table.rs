//! An ordered id-keyed table.
//!
//! Every entity table of the world is keyed by the `u64` inside its typed id
//! and iterated in ascending key order, which is what makes the simulation
//! deterministic. Ids come from one monotonic counter, so a new entry always
//! carries the largest key so far and is appended at the end; the table is a
//! pair of parallel vectors whose keys stay strictly increasing.

use vstd::prelude::*;

verus! {

/// Keys strictly increasing: sorted and free of duplicates.
pub open spec fn strictly_increasing(s: Seq<u64>) -> bool {
    forall|i: int, j: int| 0 <= i < j < s.len() ==> s[i] < s[j]
}

/// Sum of `f` over the values a map holds at the given keys, in key order.
pub open spec fn sum_over<T>(keys: Seq<u64>, m: Map<u64, T>, f: spec_fn(T) -> int) -> int
    decreases keys.len(),
{
    if keys.len() == 0 {
        0
    } else {
        sum_over(keys.drop_last(), m, f) + f(m[keys.last()])
    }
}

/// The sum only depends on the map at the listed keys.
pub proof fn lemma_sum_frame<T>(keys: Seq<u64>, m1: Map<u64, T>, m2: Map<u64, T>, f: spec_fn(T) -> int)
    requires
        forall|i: int| 0 <= i < keys.len() ==> m1[#[trigger] keys[i]] == m2[keys[i]],
    ensures
        sum_over(keys, m1, f) == sum_over(keys, m2, f),
    decreases keys.len(),
{
    if keys.len() > 0 {
        let k2 = keys.drop_last();
        assert forall|i: int| 0 <= i < k2.len() implies m1[#[trigger] k2[i]] == m2[k2[i]] by {
            assert(k2[i] == keys[i]);
        }
        lemma_sum_frame(k2, m1, m2, f);
        assert(keys.last() == keys[keys.len() - 1]);
    }
}

/// A sum of terms that are never negative is never negative.
pub proof fn lemma_sum_nonneg<T>(keys: Seq<u64>, m: Map<u64, T>, f: spec_fn(T) -> int)
    requires
        forall|i: int| 0 <= i < keys.len() ==> #[trigger] f(m[keys[i]]) >= 0,
    ensures
        sum_over(keys, m, f) >= 0,
    decreases keys.len(),
{
    if keys.len() > 0 {
        let p = keys.drop_last();
        assert forall|i: int| 0 <= i < p.len() implies #[trigger] f(m[p[i]]) >= 0 by {
            assert(p[i] == keys[i]);
        }
        lemma_sum_nonneg(p, m, f);
        assert(f(m[keys[keys.len() - 1]]) >= 0);
    }
}

/// In a sum of terms that are never negative, each term is at most the
/// sum.
pub proof fn lemma_sum_ge_term<T>(keys: Seq<u64>, m: Map<u64, T>, f: spec_fn(T) -> int, j: int)
    requires
        forall|i: int| 0 <= i < keys.len() ==> #[trigger] f(m[keys[i]]) >= 0,
        0 <= j < keys.len(),
    ensures
        f(m[keys[j]]) <= sum_over(keys, m, f),
    decreases keys.len(),
{
    let p = keys.drop_last();
    assert forall|i: int| 0 <= i < p.len() implies #[trigger] f(m[p[i]]) >= 0 by {
        assert(p[i] == keys[i]);
    }
    if j == keys.len() - 1 {
        lemma_sum_nonneg(p, m, f);
    } else {
        lemma_sum_ge_term(p, m, f, j);
        assert(p[j] == keys[j]);
        assert(f(m[keys[keys.len() - 1]]) >= 0);
    }
}

/// Appending a fresh key adds its value once.
pub proof fn lemma_sum_push<T>(keys: Seq<u64>, m: Map<u64, T>, k: u64, v: T, f: spec_fn(T) -> int)
    requires
        !keys.contains(k),
    ensures
        sum_over(keys.push(k), m.insert(k, v), f) == sum_over(keys, m, f) + f(v),
{
    let ks = keys.push(k);
    assert(ks.drop_last() =~= keys);
    assert forall|i: int| 0 <= i < keys.len() implies m.insert(k, v)[#[trigger] keys[i]] == m[keys[i]] by {
        if keys[i] == k {
            assert(keys.contains(k));
        }
    }
    lemma_sum_frame(keys, m.insert(k, v), m, f);
}

/// Replacing the value at a key that occurs once changes the sum by the
/// difference of the two values.
pub proof fn lemma_sum_update<T>(keys: Seq<u64>, m: Map<u64, T>, k: u64, v: T, f: spec_fn(T) -> int)
    requires
        strictly_increasing(keys),
        keys.contains(k),
    ensures
        sum_over(keys, m.insert(k, v), f) == sum_over(keys, m, f) - f(m[k]) + f(v),
    decreases keys.len(),
{
    let n = keys.len();
    let k2 = keys.drop_last();
    assert(strictly_increasing(k2));
    if keys.last() == k {
        assert forall|i: int| 0 <= i < k2.len() implies m.insert(k, v)[#[trigger] k2[i]] == m[k2[i]] by {
            assert(k2[i] == keys[i]);
            assert(keys[i] < keys[n - 1]);
        }
        lemma_sum_frame(k2, m.insert(k, v), m, f);
    } else {
        let j = choose|j: int| 0 <= j < n && keys[j] == k;
        assert(j != n - 1);
        assert(k2[j] == k);
        assert(k2.contains(k));
        lemma_sum_update(k2, m, k, v, f);
    }
}

/// Removing the entry at position `i` subtracts its value once.
pub proof fn lemma_sum_remove<T>(keys: Seq<u64>, m: Map<u64, T>, i: int, f: spec_fn(T) -> int)
    requires
        strictly_increasing(keys),
        0 <= i < keys.len(),
    ensures
        sum_over(keys.remove(i), m.remove(keys[i]), f) == sum_over(keys, m, f) - f(m[keys[i]]),
    decreases keys.len(),
{
    let n = keys.len();
    let k = keys[i];
    let k2 = keys.drop_last();
    let r = keys.remove(i);
    if i == n - 1 {
        assert(r =~= k2);
        assert forall|j: int| 0 <= j < k2.len() implies m.remove(k)[#[trigger] k2[j]] == m[k2[j]] by {
            assert(k2[j] == keys[j]);
            assert(keys[j] < keys[n - 1]);
        }
        lemma_sum_frame(k2, m.remove(k), m, f);
    } else {
        assert(strictly_increasing(k2));
        lemma_sum_remove(k2, m, i, f);
        assert(k2[i] == k);
        assert(r.drop_last() =~= k2.remove(i));
        assert(r.last() == keys.last());
        assert(keys.last() != k);
        assert(m.remove(k)[keys.last()] == m[keys.last()]);
    }
}

/// Position of a key in a key list.
pub open spec fn pos_in(keys: Seq<u64>, k: u64) -> int {
    choose|i: int| 0 <= i < keys.len() && keys[i] == k
}

/// The keys of a map in ascending order (for a finite key set; what a
/// well-formed table lists).
pub open spec fn key_order<T>(m: Map<u64, T>) -> Seq<u64> {
    choose|s: Seq<u64>| strictly_increasing(s) && forall|k: u64| s.contains(k) <==> m.dom().contains(k)
}

/// Two strictly increasing lists with the same elements are the same list.
pub proof fn lemma_sorted_same_elements(a: Seq<u64>, b: Seq<u64>)
    requires
        strictly_increasing(a),
        strictly_increasing(b),
        forall|k: u64| a.contains(k) <==> b.contains(k),
    ensures
        a == b,
{
    let n = if a.len() <= b.len() {
        a.len()
    } else {
        b.len()
    };
    assert forall|i: int| 0 <= i < n implies a[i] == b[i] by {
        lemma_sorted_prefix_equal(a, b, i);
    }
    if a.len() < b.len() {
        assert(b.contains(b[n as int]));
        let m = choose|m: int| 0 <= m < a.len() && a[m] == b[n as int];
        assert(a[m] == b[m]);
    } else if b.len() < a.len() {
        assert(a.contains(a[n as int]));
        let m = choose|m: int| 0 <= m < b.len() && b[m] == a[n as int];
        assert(a[m] == b[m]);
    }
    assert(a =~= b);
}

proof fn lemma_sorted_prefix_equal(a: Seq<u64>, b: Seq<u64>, i: int)
    requires
        strictly_increasing(a),
        strictly_increasing(b),
        forall|k: u64| a.contains(k) <==> b.contains(k),
        0 <= i < a.len(),
        i < b.len(),
    ensures
        a[i] == b[i],
    decreases i,
{
    if i > 0 {
        lemma_sorted_prefix_equal(a, b, i - 1);
    }
    assert forall|m: int| 0 <= m < i implies a[m] == b[m] by {
        lemma_sorted_prefix_equal(a, b, m);
    }
    if a[i] < b[i] {
        assert(a.contains(a[i]));
        let m = choose|m: int| 0 <= m < b.len() && b[m] == a[i];
        if m < i {
            assert(a[m] == b[m]);
        }
    } else if b[i] < a[i] {
        assert(b.contains(b[i]));
        let m = choose|m: int| 0 <= m < a.len() && a[m] == b[i];
        if m < i {
            assert(a[m] == b[m]);
        }
    }
}

/// The map that parallel key and value lists describe.
pub open spec fn map_of<T>(keys: Seq<u64>, vals: Seq<T>) -> Map<u64, T> {
    Map::new(|k: u64| keys.contains(k), |k: u64| vals[pos_in(keys, k)])
}

/// Overwriting the value at one position overwrites the value of that key.
pub proof fn lemma_map_of_update<T>(keys: Seq<u64>, vals: Seq<T>, i: int, x: T)
    requires
        strictly_increasing(keys),
        keys.len() == vals.len(),
        0 <= i < keys.len(),
    ensures
        map_of(keys, vals.update(i, x)) == map_of(keys, vals).insert(keys[i], x),
{
    let m1 = map_of(keys, vals.update(i, x));
    let m2 = map_of(keys, vals).insert(keys[i], x);
    assert(keys.contains(keys[i]));
    assert forall|k: u64| #[trigger] m1.dom().contains(k) implies m1[k] == m2[k] by {
        let j = pos_in(keys, k);
        if k == keys[i] {
            if j < i {
                assert(keys[j] < keys[i]);
            } else if j > i {
                assert(keys[i] < keys[j]);
            }
        } else {
            assert(j != i);
        }
    }
    assert(m1 =~= m2);
}

/// A duplicate-free list drawn from another duplicate-free list is no
/// longer than it.
pub proof fn lemma_distinct_within(a: Seq<u64>, b: Seq<u64>)
    requires
        a.no_duplicates(),
        b.no_duplicates(),
        forall|i: int| 0 <= i < a.len() ==> b.contains(#[trigger] a[i]),
    ensures
        a.len() <= b.len(),
{
    broadcast use vstd::seq_lib::seq_to_set_is_finite;

    a.unique_seq_to_set();
    b.unique_seq_to_set();
    assert(a.to_set().subset_of(b.to_set())) by {
        assert forall|x: u64| a.to_set().contains(x) implies b.to_set().contains(x) by {
            let i = choose|i: int| 0 <= i < a.len() && a[i] == x;
            assert(b.contains(a[i]));
        }
    }
    vstd::set_lib::lemma_len_subset(a.to_set(), b.to_set());
}

/// Strictly increasing keys have no duplicates.
pub proof fn lemma_increasing_distinct(s: Seq<u64>)
    requires
        strictly_increasing(s),
    ensures
        s.no_duplicates(),
{
    assert forall|i: int, j: int| 0 <= i < s.len() && 0 <= j < s.len() && i != j implies s[i] != s[j] by {
        if i < j {
            assert(s[i] < s[j]);
        } else {
            assert(s[j] < s[i]);
        }
    }
}

/// An owned copy of a slice of plain values.
pub fn copy_slice<T: Copy>(s: &[T]) -> (v: Vec<T>)
    ensures
        v@ == s@,
{
    let mut v: Vec<T> = Vec::new();
    let mut i: usize = 0;
    while i < s.len()
        invariant
            i <= s@.len(),
            v@ == s@.take(i as int),
        decreases s@.len() - i,
    {
        v.push(s[i]);
        i = i + 1;
        assert(v@ =~= s@.take(i as int));
    }
    assert(s@.take(s@.len() as int) =~= s@);
    v
}

/// An ordered table from `u64` keys to values; see the module docs.
#[derive(Debug)]
pub struct Table<T> {
    keys: Vec<u64>,
    vals: Vec<T>,
}

impl<T> Table<T> {
    /// The keys, in ascending (iteration) order.
    pub closed spec fn keys(&self) -> Seq<u64> {
        self.keys@
    }

    /// The values, in key order.
    pub closed spec fn values(&self) -> Seq<T> {
        self.vals@
    }

    pub closed spec fn wf(&self) -> bool {
        &&& self.keys@.len() == self.vals@.len()
        &&& strictly_increasing(self.keys@)
    }

    /// Position of a key in the ordered key list.
    pub closed spec fn index_of_key(&self, k: u64) -> int {
        pos_in(self.keys@, k)
    }

    /// Sum of `f` over every value, in key order.
    pub open spec fn sum_by(&self, f: spec_fn(T) -> int) -> int {
        sum_over(self.keys(), self@, f)
    }

    pub proof fn lemma_facts(&self)
        requires
            self.wf(),
        ensures
            strictly_increasing(self.keys()),
            self.values().len() == self.keys().len(),
            forall|k: u64| #[trigger] self@.dom().contains(k) <==> self.keys().contains(k),
            forall|i: int|
                0 <= i < self.keys().len() ==> self@[#[trigger] self.keys()[i]] == self.values()[i],
            forall|i: int| 0 <= i < self.keys().len() ==> self.index_of_key(#[trigger] self.keys()[i]) == i,
            forall|k: u64| #[trigger] self@.dom().contains(k) ==> {
                let i = self.index_of_key(k);
                0 <= i < self.keys().len() && self.keys()[i] == k
            },
            forall|k: u64| #[trigger] self.index_of_key(k) == pos_in(self.keys(), k),
    {
        assert forall|i: int| 0 <= i < self.keys().len() implies self.index_of_key(
            #[trigger] self.keys()[i],
        ) == i by {
            let k = self.keys@[i];
            assert(self.keys@.contains(k));
            let j = self.index_of_key(k);
            if j < i {
                assert(self.keys@[j] < self.keys@[i]);
            } else if j > i {
                assert(self.keys@[i] < self.keys@[j]);
            }
        }
        assert forall|k: u64| #[trigger] self@.dom().contains(k) implies {
            let i = self.index_of_key(k);
            0 <= i < self.keys().len() && self.keys()[i] == k
        } by {
            assert(self.keys@.contains(k));
        }
    }

    /// A well-formed table is determined by its view: two with the same map
    /// list the same keys and values in the same order.
    pub proof fn lemma_view_determines(&self, other: &Self)
        requires
            self.wf(),
            other.wf(),
            self@ == other@,
        ensures
            self.keys() == other.keys(),
            self.values() == other.values(),
    {
        self.lemma_facts();
        other.lemma_facts();
        let a = self.keys();
        let b = other.keys();
        assert forall|k: u64| a.contains(k) <==> b.contains(k) by {
            assert(self@.dom().contains(k) <==> a.contains(k));
            assert(other@.dom().contains(k) <==> b.contains(k));
        }
        lemma_sorted_same_elements(a, b);
        assert forall|i: int| 0 <= i < a.len() implies self.values()[i] == other.values()[i] by {
            assert(self@[a[i]] == self.values()[i]);
            assert(other@[b[i]] == other.values()[i]);
        }
        assert(self.values() =~= other.values());
    }

    /// A well-formed table lists its keys in ascending order.
    pub proof fn lemma_key_order(&self)
        requires
            self.wf(),
        ensures
            self.keys() == key_order(self@),
            self.keys().len() == self@.dom().len(),
    {
        self.lemma_facts();
        let a = self.keys();
        assert(strictly_increasing(a) && forall|k: u64| a.contains(k) <==> self@.dom().contains(k));
        let c = key_order(self@);
        lemma_sorted_same_elements(a, c);
        lemma_increasing_distinct(a);
        a.unique_seq_to_set();
        assert(a.to_set() =~= self@.dom());
    }

    /// A bound above every key is a fresh key.
    pub proof fn lemma_fresh(&self, b: u64)
        requires
            self.wf(),
            forall|k: u64| #[trigger] self@.dom().contains(k) ==> k < b,
        ensures
            forall|i: int| 0 <= i < self.keys().len() ==> self.keys()[i] < b,
            !self.keys().contains(b),
            !self@.dom().contains(b),
    {
        self.lemma_facts();
        assert forall|i: int| 0 <= i < self.keys().len() implies self.keys()[i] < b by {
            assert(self@.dom().contains(self.keys()[i]));
        }
    }

    pub fn new() -> (t: Self)
        ensures
            t.wf(),
            t@ == Map::<u64, T>::empty(),
            t.keys() == Seq::<u64>::empty(),
    {
        let t = Table { keys: Vec::new(), vals: Vec::new() };
        assert(t@ =~= Map::<u64, T>::empty());
        t
    }

    pub fn len(&self) -> (n: usize)
        requires
            self.wf(),
        ensures
            n == self.keys().len(),
    {
        self.keys.len()
    }

    pub fn key_at(&self, i: usize) -> (k: u64)
        requires
            self.wf(),
            i < self.keys().len(),
        ensures
            k == self.keys()[i as int],
            self@.dom().contains(k),
    {
        proof {
            self.lemma_facts();
        }
        self.keys[i]
    }

    pub fn val_at(&self, i: usize) -> (v: &T)
        requires
            self.wf(),
            i < self.keys().len(),
        ensures
            *v == self@[self.keys()[i as int]],
            self@.dom().contains(self.keys()[i as int]),
    {
        proof {
            self.lemma_facts();
        }
        &self.vals[i]
    }

    /// The values in key order.
    pub fn as_slice(&self) -> (s: &[T])
        ensures
            s@ == self.values(),
    {
        self.vals.as_slice()
    }

    /// A copy of the ordered key list (a snapshot to iterate over while the
    /// table itself is being edited).
    pub fn key_vec(&self) -> (v: Vec<u64>)
        ensures
            v@ == self.keys(),
    {
        self.keys.clone()
    }

    pub fn find(&self, k: u64) -> (r: Option<usize>)
        requires
            self.wf(),
        ensures
            match r {
                Some(i) => i < self.keys().len() && self.keys()[i as int] == k && self@.dom().contains(k)
                    && i == self.index_of_key(k),
                None => !self@.dom().contains(k),
            },
    {
        proof {
            self.lemma_facts();
        }
        let mut i: usize = 0;
        while i < self.keys.len()
            invariant
                self.wf(),
                i <= self.keys@.len(),
                forall|j: int| 0 <= j < i ==> self.keys@[j] != k,
            decreases self.keys@.len() - i,
        {
            if self.keys[i] == k {
                return Some(i);
            }
            i = i + 1;
        }
        proof {
            if self.keys@.contains(k) {
                let j = choose|j: int| 0 <= j < self.keys@.len() && self.keys@[j] == k;
                assert(self.keys@[j] != k);
            }
        }
        None
    }

    pub fn contains(&self, k: u64) -> (b: bool)
        requires
            self.wf(),
        ensures
            b == self@.dom().contains(k),
    {
        self.find(k).is_some()
    }

    pub fn get(&self, k: u64) -> (r: Option<&T>)
        requires
            self.wf(),
        ensures
            match r {
                Some(v) => self@.dom().contains(k) && *v == self@[k],
                None => !self@.dom().contains(k),
            },
    {
        match self.find(k) {
            Some(i) => {
                proof {
                    self.lemma_facts();
                }
                Some(&self.vals[i])
            },
            None => None,
        }
    }

    /// Add an entry under a key larger than every key present.
    pub fn insert_new(&mut self, k: u64, v: T)
        requires
            old(self).wf(),
            forall|i: int| 0 <= i < old(self).keys().len() ==> old(self).keys()[i] < k,
        ensures
            final(self).wf(),
            final(self)@ == old(self)@.insert(k, v),
            final(self).keys() == old(self).keys().push(k),
            final(self).values() == old(self).values().push(v),
    {
        proof {
            old(self).lemma_facts();
        }
        self.keys.push(k);
        self.vals.push(v);
        proof {
            let o = old(self);
            assert(strictly_increasing(self.keys@));
            self.lemma_facts();
            assert(self.keys@[o.keys@.len() as int] == k);
            assert(self.keys@.contains(k));
            assert forall|x: u64| #[trigger] self@.dom().contains(x) == o@.insert(k, v).dom().contains(x) by {
                if x != k && self.keys@.contains(x) {
                    let j = choose|j: int| 0 <= j < self.keys@.len() && self.keys@[j] == x;
                    assert(j != o.keys@.len());
                    assert(o.keys@[j] == x);
                }
                if x != k && o.keys@.contains(x) {
                    let j = choose|j: int| 0 <= j < o.keys@.len() && o.keys@[j] == x;
                    assert(self.keys@[j] == x);
                }
            }
            assert forall|x: u64| #[trigger] self@.dom().contains(x) implies self@[x] == o@.insert(
                k,
                v,
            )[x] by {
                let i = self.index_of_key(x);
                if x == k {
                    assert(self.keys@[o.keys@.len() as int] == k);
                } else {
                    assert(i < o.keys@.len());
                    assert(o.keys@[i] == x);
                    assert(o@[x] == o.vals@[i]);
                }
            }
            assert(self@ =~= o@.insert(k, v));
        }
    }

    /// Insert or replace the entry under any key, keeping keys sorted.
    pub fn insert(&mut self, k: u64, v: T)
        requires
            old(self).wf(),
        ensures
            final(self).wf(),
            final(self)@ == old(self)@.insert(k, v),
    {
        proof {
            old(self).lemma_facts();
        }
        let mut i: usize = 0;
        while i < self.keys.len() && self.keys[i] < k
            invariant
                self.wf(),
                *self == *old(self),
                i <= self.keys@.len(),
                forall|j: int| 0 <= j < i ==> self.keys@[j] < k,
            decreases self.keys@.len() - i,
        {
            i = i + 1;
        }
        if i < self.keys.len() && self.keys[i] == k {
            proof {
                lemma_map_of_update(self.keys@, self.vals@, i as int, v);
            }
            self.vals.set(i, v);
        } else {
            let ghost ok = self.keys@;
            let ghost ov = self.vals@;
            let ghost om = self@;
            self.keys.insert(i, k);
            self.vals.insert(i, v);
            proof {
                assert(self.keys@ == ok.insert(i as int, k));
                assert(self.vals@ == ov.insert(i as int, v));
                assert forall|a: int, b: int| 0 <= a < b < self.keys@.len() implies self.keys@[a] < self.keys@[b] by {
                    if b < i {
                        assert(ok[a] < ok[b]);
                    } else if b == i {
                        assert(ok[a] < k);
                    } else if a < i {
                        assert(ok[a] < k);
                        assert(k < ok[i as int]);
                        assert(ok[i as int] <= ok[b - 1]);
                    } else if a == i {
                        assert(k < ok[i as int]);
                        assert(ok[i as int] <= ok[b - 1]);
                    } else {
                        assert(ok[a - 1] < ok[b - 1]);
                    }
                }
                self.lemma_facts();
                assert forall|x: u64| #[trigger] self@.dom().contains(x) == om.insert(k, v).dom().contains(x) by {
                    if self.keys@.contains(x) && x != k {
                        let j = choose|j: int| 0 <= j < self.keys@.len() && self.keys@[j] == x;
                        let oj = if j < i { j } else { j - 1 };
                        assert(j != i);
                        assert(ok[oj] == x);
                    }
                    if x != k && ok.contains(x) {
                        let j = choose|j: int| 0 <= j < ok.len() && ok[j] == x;
                        let nj = if j < i { j } else { j + 1 };
                        assert(self.keys@[nj] == x);
                    }
                    if x == k {
                        assert(self.keys@[i as int] == k);
                    }
                }
                assert forall|x: u64| #[trigger] self@.dom().contains(x) implies self@[x] == om.insert(k, v)[x] by {
                    let j = self.index_of_key(x);
                    if x == k {
                        assert(self.keys@[i as int] == k);
                        assert(self.index_of_key(self.keys@[i as int]) == i);
                    } else {
                        assert(j != i);
                        let oj = if j < i { j } else { j - 1 };
                        assert(ok[oj] == x);
                        assert(old(self).index_of_key(old(self).keys()[oj]) == oj);
                        assert(om[x] == ov[oj]);
                    }
                }
                assert(self@ =~= om.insert(k, v));
            }
        }
    }

    /// Mutable access to the value under an existing key.
    pub fn get_mut(&mut self, k: u64) -> (r: &mut T)
        requires
            old(self).wf(),
            old(self)@.dom().contains(k),
        ensures
            *r == old(self)@[k],
            final(self).wf(),
            final(self)@ == old(self)@.insert(k, *final(r)),
            final(self).keys() == old(self).keys(),
    {
        let i = self.find(k).unwrap();
        proof {
            old(self).lemma_facts();
            assert forall|x: T| #[trigger] map_of(old(self).keys@, old(self).vals@.update(i as int, x))
                == old(self)@.insert(k, x) by {
                lemma_map_of_update(old(self).keys@, old(self).vals@, i as int, x);
            }
        }
        &mut self.vals[i]
    }

    /// Remove the entry under a key, returning its value if it was present.
    pub fn remove(&mut self, k: u64) -> (r: Option<T>)
        requires
            old(self).wf(),
        ensures
            final(self).wf(),
            final(self)@ == old(self)@.remove(k),
            match r {
                Some(v) => old(self)@.dom().contains(k) && v == old(self)@[k] && final(self).keys()
                    == old(self).keys().remove(old(self).index_of_key(k)),
                None => !old(self)@.dom().contains(k) && final(self).keys() == old(self).keys(),
            },
    {
        match self.find(k) {
            None => {
                assert(self@ =~= old(self)@.remove(k));
                None
            },
            Some(i) => {
                proof {
                    old(self).lemma_facts();
                }
                self.keys.remove(i);
                let v = self.vals.remove(i);
                proof {
                    let o = old(self);
                    assert(self.keys@ == o.keys@.remove(i as int));
                    assert(self.vals@ == o.vals@.remove(i as int));
                    assert(strictly_increasing(self.keys@)) by {
                        assert forall|a: int, b: int| 0 <= a < b < self.keys@.len() implies self.keys@[a]
                            < self.keys@[b] by {
                            let oa = if a < i { a } else { a + 1 };
                            let ob = if b < i { b } else { b + 1 };
                            assert(self.keys@[a] == o.keys@[oa]);
                            assert(self.keys@[b] == o.keys@[ob]);
                        }
                    }
                    self.lemma_facts();
                    assert forall|x: u64| #[trigger] self@.dom().contains(x) == o@.remove(k).dom().contains(x) by {
                        if self.keys@.contains(x) {
                            let j = choose|j: int| 0 <= j < self.keys@.len() && self.keys@[j] == x;
                            let oj = if j < i { j } else { j + 1 };
                            assert(o.keys@[oj] == x);
                            assert(oj != i);
                        }
                        if x != k && o.keys@.contains(x) {
                            let j = choose|j: int| 0 <= j < o.keys@.len() && o.keys@[j] == x;
                            assert(j != i);
                            let nj = if j < i { j } else { j - 1 };
                            assert(self.keys@[nj] == x);
                        }
                    }
                    assert forall|x: u64| #[trigger] self@.dom().contains(x) implies self@[x] == o@.remove(
                        k,
                    )[x] by {
                        let j = self.index_of_key(x);
                        let oj = if j < i { j } else { j + 1 };
                        assert(o.keys@[oj] == x);
                        assert(o.index_of_key(x) == oj);
                    }
                    assert(self@ =~= o@.remove(k));
                }
                Some(v)
            },
        }
    }
}

impl<T> View for Table<T> {
    type V = Map<u64, T>;

    closed spec fn view(&self) -> Map<u64, T> {
        map_of(self.keys@, self.vals@)
    }
}

} // verus!
