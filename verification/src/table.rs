//! An ordered table keyed by paths: the keys are kept strictly sorted in
//! the order that `String`'s `Ord` gives them (code point by code point),
//! so walking the table visits the keys in that order, and a lookup is a
//! binary search.
use vstd::prelude::*;

verus! {

/// `a` comes strictly before `b` in lexicographic order of code points.
pub open spec fn path_lt(a: Seq<char>, b: Seq<char>) -> bool
    decreases a.len(),
{
    if a.len() == 0 {
        b.len() > 0
    } else if b.len() == 0 {
        false
    } else if a[0] == b[0] {
        path_lt(a.drop_first(), b.drop_first())
    } else {
        a[0] < b[0]
    }
}

/// Every key comes strictly before every later key.
pub open spec fn strictly_sorted(s: Seq<Seq<char>>) -> bool {
    forall|i: int, j: int| 0 <= i < j < s.len() ==> path_lt(#[trigger] s[i], #[trigger] s[j])
}

/// No sequence comes before itself.
pub proof fn lemma_path_lt_irreflexive(a: Seq<char>)
    ensures
        !path_lt(a, a),
    decreases a.len(),
{
    if a.len() > 0 {
        lemma_path_lt_irreflexive(a.drop_first());
    }
}

/// The order is transitive.
pub proof fn lemma_path_lt_transitive(a: Seq<char>, b: Seq<char>, c: Seq<char>)
    requires
        path_lt(a, b),
        path_lt(b, c),
    ensures
        path_lt(a, c),
    decreases a.len(),
{
    if a.len() > 0 && b.len() > 0 && c.len() > 0 && a[0] == b[0] && b[0] == c[0] {
        lemma_path_lt_transitive(a.drop_first(), b.drop_first(), c.drop_first());
    }
}

/// Any two sequences are equal or ordered one way or the other, and not both.
pub proof fn lemma_path_lt_total(a: Seq<char>, b: Seq<char>)
    ensures
        a == b || path_lt(a, b) || path_lt(b, a),
        !(path_lt(a, b) && path_lt(b, a)),
    decreases a.len(),
{
    if a.len() > 0 && b.len() > 0 && a[0] == b[0] {
        lemma_path_lt_total(a.drop_first(), b.drop_first());
        if a.drop_first() == b.drop_first() {
            assert forall|i: int| 0 <= i < a.len() implies a[i] == b[i] by {
                if i > 0 {
                    assert(a[i] == a.drop_first()[i - 1]);
                    assert(b[i] == b.drop_first()[i - 1]);
                }
            }
            assert(a =~= b);
        }
    } else if a.len() == 0 && b.len() == 0 {
        assert(a =~= b);
    }
}

/// The outcome of comparing two paths.
pub enum PathOrder {
    Less,
    Equal,
    Greater,
}

/// Compares two character sequences as `String`'s `Ord` does.
pub fn compare_paths(a: &Vec<char>, b: &Vec<char>) -> (r: PathOrder)
    ensures
        r is Less <==> path_lt(a@, b@),
        r is Equal <==> a@ == b@,
        r is Greater <==> path_lt(b@, a@),
{
    proof {
        lemma_path_lt_total(a@, b@);
        lemma_path_lt_irreflexive(a@);
    }
    let mut i: usize = 0;
    assert(a@.skip(0) =~= a@);
    assert(b@.skip(0) =~= b@);
    while i < a.len() && i < b.len() && a[i] == b[i]
        invariant
            i <= a.len(),
            i <= b.len(),
            a@.take(i as int) == b@.take(i as int),
            path_lt(a@, b@) == path_lt(a@.skip(i as int), b@.skip(i as int)),
            path_lt(b@, a@) == path_lt(b@.skip(i as int), a@.skip(i as int)),
        decreases a.len() - i,
    {
        assert(a@.skip(i as int).drop_first() =~= a@.skip(i + 1));
        assert(b@.skip(i as int).drop_first() =~= b@.skip(i + 1));
        assert(a@.take(i + 1) =~= a@.take(i as int).push(a@[i as int]));
        assert(b@.take(i + 1) =~= b@.take(i as int).push(b@[i as int]));
        i = i + 1;
    }
    if i == a.len() && i == b.len() {
        assert(a@ =~= a@.take(i as int));
        assert(b@ =~= b@.take(i as int));
        PathOrder::Equal
    } else if i == a.len() {
        assert(a@.skip(i as int).len() == 0);
        PathOrder::Less
    } else if i == b.len() {
        assert(b@.skip(i as int).len() == 0);
        PathOrder::Greater
    } else {
        assert(a@.skip(i as int)[0] == a@[i as int]);
        assert(b@.skip(i as int)[0] == b@[i as int]);
        assert(a@[i as int] != b@[i as int]);
        if a[i] < b[i] {
            PathOrder::Less
        } else {
            PathOrder::Greater
        }
    }
}

/// A table from paths to values, with its keys strictly sorted.
pub struct PathTable<V> {
    pub keys: Vec<Vec<char>>,
    pub vals: Vec<V>,
}

impl<V: View> PathTable<V> {
    /// The keys, in table order.
    pub open spec fn key_seq(&self) -> Seq<Seq<char>> {
        self.keys@.map_values(|k: Vec<char>| k@)
    }

    /// One value per key, and the keys strictly sorted.
    pub open spec fn wf(&self) -> bool {
        &&& self.keys@.len() == self.vals@.len()
        &&& strictly_sorted(self.key_seq())
    }

    /// The map from each key to the view of its value.
    pub open spec fn map(&self) -> Map<Seq<char>, V::V> {
        Map::new(
            |k: Seq<char>| self.key_seq().contains(k),
            |k: Seq<char>| self.vals@[self.key_seq().index_of(k)]@,
        )
    }

    /// In a well-formed table a key sits at exactly one index.
    pub proof fn lemma_index(&self, i: int)
        requires
            self.wf(),
            0 <= i < self.key_seq().len(),
        ensures
            self.key_seq().contains(self.key_seq()[i]),
            self.key_seq().index_of(self.key_seq()[i]) == i,
            self.map().contains_key(self.key_seq()[i]),
            self.map()[self.key_seq()[i]] == self.vals@[i]@,
    {
        let k = self.key_seq()[i];
        assert(self.key_seq().contains(k));
        let j = self.key_seq().index_of(k);
        assert(0 <= j < self.key_seq().len() && self.key_seq()[j] == k);
        if j < i {
            assert(path_lt(self.key_seq()[j], self.key_seq()[i]));
            lemma_path_lt_irreflexive(k);
        } else if i < j {
            assert(path_lt(self.key_seq()[i], self.key_seq()[j]));
            lemma_path_lt_irreflexive(k);
        }
    }

    /// The keys of the map are exactly the keys of the table, a finite set.
    pub proof fn lemma_dom(&self)
        ensures
            self.map().dom() == self.key_seq().to_set(),
            self.map().dom().finite(),
    {
        assert(self.map().dom() =~= self.key_seq().to_set());
        vstd::seq_lib::seq_to_set_is_finite(self.key_seq());
    }

    /// The keys are pairwise distinct.
    pub proof fn lemma_no_duplicates(&self)
        requires
            self.wf(),
        ensures
            self.key_seq().no_duplicates(),
    {
        assert forall|i: int, j: int|
            0 <= i < self.key_seq().len() && 0 <= j < self.key_seq().len() && i != j implies
            self.key_seq()[i] != self.key_seq()[j] by {
            if i < j {
                assert(path_lt(self.key_seq()[i], self.key_seq()[j]));
            } else {
                assert(path_lt(self.key_seq()[j], self.key_seq()[i]));
            }
            lemma_path_lt_irreflexive(self.key_seq()[i]);
        }
    }

    /// An empty table.
    pub fn new() -> (t: Self)
        ensures
            t.wf(),
            t.map() == Map::<Seq<char>, V::V>::empty(),
            t.key_seq().len() == 0,
    {
        let t = PathTable { keys: Vec::new(), vals: Vec::new() };
        assert(t.map() =~= Map::<Seq<char>, V::V>::empty());
        t
    }

    /// Number of entries.
    pub fn len(&self) -> (n: usize)
        requires
            self.wf(),
        ensures
            n == self.key_seq().len(),
    {
        self.keys.len()
    }

    /// Binary search: `Ok(i)` where the key sits, or `Err(i)` where it would go.
    pub fn search(&self, key: &Vec<char>) -> (r: Result<usize, usize>)
        requires
            self.wf(),
        ensures
            r matches Ok(i) ==> i < self.key_seq().len() && self.key_seq()[i as int] == key@,
            r matches Err(i) ==> i <= self.key_seq().len() && (forall|j: int|
                0 <= j < i ==> path_lt(#[trigger] self.key_seq()[j], key@)) && (forall|j: int|
                i <= j < self.key_seq().len() ==> path_lt(key@, #[trigger] self.key_seq()[j])),
            r is Err <==> !self.map().contains_key(key@),
    {
        let mut lo: usize = 0;
        let mut hi: usize = self.keys.len();
        while lo < hi
            invariant
                self.wf(),
                lo <= hi <= self.key_seq().len(),
                forall|j: int| 0 <= j < lo ==> path_lt(#[trigger] self.key_seq()[j], key@),
                forall|j: int| hi <= j < self.key_seq().len() ==> path_lt(key@, #[trigger] self.key_seq()[j]),
            decreases hi - lo,
        {
            let mid = lo + (hi - lo) / 2;
            let km = &self.keys[mid];
            assert(km@ == self.key_seq()[mid as int]);
            match compare_paths(key, km) {
                PathOrder::Equal => {
                    proof {
                        self.lemma_index(mid as int);
                    }
                    return Ok(mid);
                },
                PathOrder::Less => {
                    assert forall|j: int| mid <= j < self.key_seq().len() implies path_lt(
                        key@,
                        #[trigger] self.key_seq()[j],
                    ) by {
                        if j > mid {
                            assert(path_lt(self.key_seq()[mid as int], self.key_seq()[j]));
                            lemma_path_lt_transitive(key@, self.key_seq()[mid as int], self.key_seq()[j]);
                        }
                    }
                    hi = mid;
                },
                PathOrder::Greater => {
                    assert forall|j: int| 0 <= j <= mid implies path_lt(
                        #[trigger] self.key_seq()[j],
                        key@,
                    ) by {
                        if j < mid {
                            assert(path_lt(self.key_seq()[j], self.key_seq()[mid as int]));
                            lemma_path_lt_transitive(self.key_seq()[j], self.key_seq()[mid as int], key@);
                        }
                    }
                    lo = mid + 1;
                },
            }
        }
        proof {
            if self.map().contains_key(key@) {
                let j = self.key_seq().index_of(key@);
                assert(0 <= j < self.key_seq().len() && self.key_seq()[j] == key@);
                lemma_path_lt_irreflexive(key@);
            }
        }
        Err(lo)
    }

    /// The value stored under `key`, if any.
    pub fn get(&self, key: &Vec<char>) -> (r: Option<&V>)
        requires
            self.wf(),
        ensures
            r is Some <==> self.map().contains_key(key@),
            r matches Some(v) ==> v@ == self.map()[key@],
    {
        match self.search(key) {
            Ok(i) => {
                proof {
                    self.lemma_index(i as int);
                }
                Some(&self.vals[i])
            },
            Err(_) => None,
        }
    }

    /// Stores `val` under `key`, replacing what was there.
    pub fn insert(&mut self, key: Vec<char>, val: V)
        requires
            old(self).wf(),
        ensures
            final(self).wf(),
            final(self).map() == old(self).map().insert(key@, val@),
            old(self).map().contains_key(key@) ==> final(self).key_seq() == old(self).key_seq(),
    {
        let ghost old_keys = self.key_seq();
        let ghost old_map = self.map();
        match self.search(&key) {
            Ok(i) => {
                self.vals.set(i, val);
                assert(self.key_seq() == old_keys);
                assert(self.wf());
                proof {
                    assert forall|k: Seq<char>|
                        #[trigger] self.map().contains_key(k) implies self.map()[k] == old_map.insert(
                            key@,
                            val@,
                        )[k] by {
                        let j = self.key_seq().index_of(k);
                        assert(self.key_seq().contains(k));
                        assert(0 <= j < self.key_seq().len() && self.key_seq()[j] == k);
                        self.lemma_index(j);
                        self.lemma_index(i as int);
                        old(self).lemma_index(j);
                        if j != i {
                            assert(self.vals@[j] == old(self).vals@[j]);
                        }
                    }
                    assert(self.map() =~= old_map.insert(key@, val@));
                }
            },
            Err(i) => {
                let ghost kv = key@;
                self.keys.insert(i, key);
                self.vals.insert(i, val);
                assert(self.key_seq() =~= old_keys.insert(i as int, kv));
                assert forall|a: int, b: int| 0 <= a < b < self.key_seq().len() implies path_lt(
                    #[trigger] self.key_seq()[a],
                    #[trigger] self.key_seq()[b],
                ) by {
                    if b < i {
                        assert(self.key_seq()[a] == old_keys[a]);
                        assert(self.key_seq()[b] == old_keys[b]);
                    } else if b == i {
                        assert(self.key_seq()[a] == old_keys[a]);
                    } else if a == i {
                        assert(self.key_seq()[b] == old_keys[b - 1]);
                    } else if a < i {
                        assert(self.key_seq()[a] == old_keys[a]);
                        assert(self.key_seq()[b] == old_keys[b - 1]);
                    } else {
                        assert(self.key_seq()[a] == old_keys[a - 1]);
                        assert(self.key_seq()[b] == old_keys[b - 1]);
                    }
                }
                proof {
                    assert forall|k: Seq<char>|
                        self.map().contains_key(k) <==> #[trigger] old_map.insert(kv, val@).contains_key(k) by {
                        if self.key_seq().contains(k) {
                            let j = self.key_seq().index_of(k);
                            if j < i {
                                assert(old_keys[j] == k);
                            } else if j > i {
                                assert(old_keys[j - 1] == k);
                            }
                        }
                        if old_keys.contains(k) {
                            let j = old_keys.index_of(k);
                            if j < i {
                                assert(self.key_seq()[j] == k);
                            } else {
                                assert(self.key_seq()[j + 1] == k);
                            }
                        }
                        if k == kv {
                            assert(self.key_seq()[i as int] == k);
                        }
                    }
                    assert forall|k: Seq<char>| #[trigger]
                        self.map().contains_key(k) implies self.map()[k] == old_map.insert(
                            kv,
                            val@,
                        )[k] by {
                        let j = self.key_seq().index_of(k);
                        self.lemma_index(j);
                        if j < i {
                            old(self).lemma_index(j);
                        } else if j > i {
                            old(self).lemma_index(j - 1);
                        }
                    }
                    assert(self.map() =~= old_map.insert(kv, val@));
                }
            },
        }
    }

    /// The value at index `i`, to be changed in place; the keys stay as they are.
    pub fn value_at_mut(&mut self, i: usize) -> (r: &mut V)
        requires
            old(self).wf(),
            i < old(self).key_seq().len(),
        ensures
            *r == old(self).vals@[i as int],
            final(self).keys == old(self).keys,
            final(self).vals@ == old(self).vals@.update(i as int, *final(r)),
    {
        &mut self.vals[i]
    }

    /// The map after the value at index `i` has been replaced.
    pub proof fn lemma_update(old_t: Self, new_t: Self, i: int)
        requires
            old_t.wf(),
            0 <= i < old_t.key_seq().len(),
            new_t.keys == old_t.keys,
            new_t.vals@ == old_t.vals@.update(i, new_t.vals@[i]),
        ensures
            new_t.wf(),
            new_t.key_seq() == old_t.key_seq(),
            new_t.map() == old_t.map().insert(old_t.key_seq()[i], new_t.vals@[i]@),
    {
        assert(new_t.key_seq() == old_t.key_seq());
        assert(new_t.wf());
        assert forall|k: Seq<char>| #[trigger]
            new_t.map().contains_key(k) implies new_t.map()[k] == old_t.map().insert(
                old_t.key_seq()[i],
                new_t.vals@[i]@,
            )[k] by {
            let j = new_t.key_seq().index_of(k);
            assert(new_t.key_seq().contains(k));
            assert(0 <= j < new_t.key_seq().len() && new_t.key_seq()[j] == k);
            new_t.lemma_index(j);
            new_t.lemma_index(i);
            old_t.lemma_index(j);
            if j != i {
                assert(new_t.vals@[j] == old_t.vals@[j]);
            }
        }
        old_t.lemma_index(i);
        assert(new_t.map() =~= old_t.map().insert(old_t.key_seq()[i], new_t.vals@[i]@));
    }
}

} // verus!
