use vstd::prelude::*;

verus! {

/// A finite map from `u64` keys to values, kept as a list of entries with pairwise
/// distinct keys in insertion order. Iterating it visits the entries in that order.
#[derive(Debug)]
pub struct VecMap<V> {
    pub entries: Vec<(u64, V)>,
}

pub open spec fn distinct_keys<V>(s: Seq<(u64, V)>) -> bool {
    forall|i: int, j: int|
        0 <= i < s.len() && 0 <= j < s.len() && i != j ==> #[trigger] s[i].0 != #[trigger] s[j].0
}

pub open spec fn seq_has_key<V>(s: Seq<(u64, V)>, k: u64) -> bool {
    exists|i: int| 0 <= i < s.len() && #[trigger] s[i].0 == k
}

/// The map denoted by a list of entries with distinct keys.
pub open spec fn seq_map<V>(s: Seq<(u64, V)>) -> Map<u64, V> {
    Map::new(
        |k: u64| seq_has_key(s, k),
        |k: u64| s[choose|i: int| 0 <= i < s.len() && #[trigger] s[i].0 == k].1,
    )
}

/// The entry list after inserting `(key, value)`: the entry of `key` is replaced where
/// it stands, or the pair is appended.
pub open spec fn entries_insert<V>(s: Seq<(u64, V)>, key: u64, value: V) -> Seq<(u64, V)> {
    if seq_has_key(s, key) {
        s.update(choose|i: int| 0 <= i < s.len() && #[trigger] s[i].0 == key, (key, value))
    } else {
        s.push((key, value))
    }
}

pub proof fn lemma_seq_map_at<V>(s: Seq<(u64, V)>, i: int)
    requires
        distinct_keys(s),
        0 <= i < s.len(),
    ensures
        seq_map(s).contains_key(s[i].0),
        seq_map(s)[s[i].0] == s[i].1,
{
    let k = s[i].0;
    assert(seq_has_key(s, k));
    let j = choose|j: int| 0 <= j < s.len() && #[trigger] s[j].0 == k;
    assert(j == i);
}

pub proof fn lemma_seq_map_push<V>(s: Seq<(u64, V)>, e: (u64, V))
    requires
        distinct_keys(s),
        !seq_has_key(s, e.0),
    ensures
        distinct_keys(s.push(e)),
        seq_map(s.push(e)) == seq_map(s).insert(e.0, e.1),
{
    let t = s.push(e);
    assert(distinct_keys(t)) by {
        assert forall|i: int, j: int|
            0 <= i < t.len() && 0 <= j < t.len() && i != j implies #[trigger] t[i].0 != #[trigger] t[j].0 by {
            if i == s.len() {
                assert(t[j] == s[j]);
            } else if j == s.len() {
                assert(t[i] == s[i]);
            } else {
                assert(t[i] == s[i] && t[j] == s[j]);
            }
        }
    }
    assert forall|k: u64| #[trigger] seq_map(t).contains_key(k) == seq_map(s).insert(e.0, e.1).contains_key(k) by {
        if seq_has_key(t, k) {
            let i = choose|i: int| 0 <= i < t.len() && #[trigger] t[i].0 == k;
            if i < s.len() {
                assert(s[i].0 == k);
            }
        }
        if seq_has_key(s, k) {
            let i = choose|i: int| 0 <= i < s.len() && #[trigger] s[i].0 == k;
            assert(t[i].0 == k);
        }
        if k == e.0 {
            assert(t[s.len() as int].0 == k);
        }
    }
    assert forall|k: u64| #[trigger] seq_map(t).contains_key(k) implies seq_map(t)[k] == seq_map(s).insert(e.0, e.1)[k] by {
        let i = choose|i: int| 0 <= i < t.len() && #[trigger] t[i].0 == k;
        lemma_seq_map_at(t, i);
        if i < s.len() {
            assert(t[i] == s[i]);
            lemma_seq_map_at(s, i);
        }
    }
    assert(seq_map(t) =~= seq_map(s).insert(e.0, e.1));
}

pub proof fn lemma_seq_map_update<V>(s: Seq<(u64, V)>, i: int, e: (u64, V))
    requires
        distinct_keys(s),
        0 <= i < s.len(),
        s[i].0 == e.0,
    ensures
        distinct_keys(s.update(i, e)),
        seq_map(s.update(i, e)) == seq_map(s).insert(e.0, e.1),
{
    let t = s.update(i, e);
    assert(distinct_keys(t)) by {
        assert forall|a: int, b: int|
            0 <= a < t.len() && 0 <= b < t.len() && a != b implies #[trigger] t[a].0 != #[trigger] t[b].0 by {
            assert(t[a].0 == s[a].0);
            assert(t[b].0 == s[b].0);
        }
    }
    assert forall|k: u64| #[trigger] seq_map(t).contains_key(k) == seq_map(s).insert(e.0, e.1).contains_key(k) by {
        if seq_has_key(t, k) {
            let j = choose|j: int| 0 <= j < t.len() && #[trigger] t[j].0 == k;
            assert(s[j].0 == k);
        }
        if seq_has_key(s, k) {
            let j = choose|j: int| 0 <= j < s.len() && #[trigger] s[j].0 == k;
            assert(t[j].0 == k);
        }
        if k == e.0 {
            assert(t[i].0 == k);
        }
    }
    assert forall|k: u64| #[trigger] seq_map(t).contains_key(k) implies seq_map(t)[k] == seq_map(s).insert(e.0, e.1)[k] by {
        let j = choose|j: int| 0 <= j < t.len() && #[trigger] t[j].0 == k;
        lemma_seq_map_at(t, j);
        if j != i {
            lemma_seq_map_at(s, j);
        }
    }
    assert(seq_map(t) =~= seq_map(s).insert(e.0, e.1));
}

pub proof fn lemma_seq_map_remove<V>(s: Seq<(u64, V)>, i: int)
    requires
        distinct_keys(s),
        0 <= i < s.len(),
    ensures
        distinct_keys(s.remove(i)),
        seq_map(s.remove(i)) == seq_map(s).remove(s[i].0),
{
    let t = s.remove(i);
    let k0 = s[i].0;
    assert(distinct_keys(t)) by {
        assert forall|a: int, b: int|
            0 <= a < t.len() && 0 <= b < t.len() && a != b implies #[trigger] t[a].0 != #[trigger] t[b].0 by {
            let oa = if a < i { a } else { a + 1 };
            let ob = if b < i { b } else { b + 1 };
            assert(t[a] == s[oa]);
            assert(t[b] == s[ob]);
        }
    }
    assert forall|k: u64| #[trigger] seq_map(t).contains_key(k) == seq_map(s).remove(k0).contains_key(k) by {
        if seq_has_key(t, k) {
            let j = choose|j: int| 0 <= j < t.len() && #[trigger] t[j].0 == k;
            let oj = if j < i { j } else { j + 1 };
            assert(t[j] == s[oj]);
            assert(s[oj].0 == k);
            assert(oj != i);
        }
        if seq_has_key(s, k) && k != k0 {
            let j = choose|j: int| 0 <= j < s.len() && #[trigger] s[j].0 == k;
            assert(j != i);
            let tj = if j < i { j } else { j - 1 };
            assert(t[tj] == s[j]);
            assert(t[tj].0 == k);
        }
    }
    assert forall|k: u64| #[trigger] seq_map(t).contains_key(k) implies seq_map(t)[k] == seq_map(s).remove(k0)[k] by {
        let j = choose|j: int| 0 <= j < t.len() && #[trigger] t[j].0 == k;
        let oj = if j < i { j } else { j + 1 };
        assert(t[j] == s[oj]);
        lemma_seq_map_at(t, j);
        lemma_seq_map_at(s, oj);
    }
    assert(seq_map(t) =~= seq_map(s).remove(k0));
}

/// A finite entry list denotes a finite map whose size is the number of entries.
pub proof fn lemma_seq_map_finite_len<V>(s: Seq<(u64, V)>)
    requires
        distinct_keys(s),
    ensures
        seq_map(s).dom().finite(),
        seq_map(s).len() == s.len(),
    decreases s.len(),
{
    if s.len() == 0 {
        assert(seq_map(s) =~= Map::<u64, V>::empty());
    } else {
        let last = s.last();
        let init = s.drop_last();
        lemma_take_push(s, s.len() - 1);
        assert(init =~= s.take(s.len() - 1));
        assert(s.take(s.len() as int) =~= s);
        lemma_seq_map_finite_len(init);
    }
}

/// Extending a prefix of an entry list by its next entry.
pub proof fn lemma_take_push<V>(s: Seq<(u64, V)>, i: int)
    requires
        distinct_keys(s),
        0 <= i < s.len(),
    ensures
        distinct_keys(s.take(i)),
        !seq_has_key(s.take(i), s[i].0),
        s.take(i + 1) == s.take(i).push(s[i]),
        seq_map(s.take(i + 1)) == seq_map(s.take(i)).insert(s[i].0, s[i].1),
{
    let p = s.take(i);
    assert(distinct_keys(p)) by {
        assert forall|a: int, b: int|
            0 <= a < p.len() && 0 <= b < p.len() && a != b implies #[trigger] p[a].0 != #[trigger] p[b].0 by {
            assert(p[a] == s[a] && p[b] == s[b]);
        }
    }
    assert(!seq_has_key(p, s[i].0)) by {
        if seq_has_key(p, s[i].0) {
            let j = choose|j: int| 0 <= j < p.len() && #[trigger] p[j].0 == s[i].0;
            assert(s[j].0 == s[i].0);
        }
    }
    assert(s.take(i + 1) =~= p.push(s[i]));
    lemma_seq_map_push(p, s[i]);
}

pub proof fn lemma_seq_map_empty<V>(s: Seq<(u64, V)>)
    requires
        s.len() == 0,
    ensures
        seq_map(s) == Map::<u64, V>::empty(),
{
    assert(seq_map(s) =~= Map::<u64, V>::empty());
}

impl<V> View for VecMap<V> {
    type V = Map<u64, V>;

    open spec fn view(&self) -> Map<u64, V> {
        seq_map(self.entries@)
    }
}

impl<V> VecMap<V> {
    /// The map keeps each key at most once.
    pub open spec fn wf(&self) -> bool {
        distinct_keys(self.entries@)
    }

    pub fn new() -> (r: VecMap<V>)
        ensures
            r.wf(),
            r@ == Map::<u64, V>::empty(),
            r.entries@.len() == 0,
    {
        let r = VecMap { entries: Vec::new() };
        proof {
            lemma_seq_map_empty(r.entries@);
        }
        r
    }

    pub proof fn lemma_len(&self)
        requires
            self.wf(),
        ensures
            self@.dom().finite(),
            self@.len() == self.entries@.len(),
    {
        lemma_seq_map_finite_len(self.entries@);
    }

    pub fn len(&self) -> (n: usize)
        requires
            self.wf(),
        ensures
            n == self.entries@.len(),
            n == self@.len(),
    {
        proof {
            self.lemma_len();
        }
        self.entries.len()
    }

    /// Whether the map is empty.
    pub fn is_empty(&self) -> (r: bool)
        requires
            self.wf(),
        ensures
            r == (self@.len() == 0),
            r == (self@ == Map::<u64, V>::empty()),
    {
        proof {
            self.lemma_len();
            if self.entries@.len() > 0 {
                lemma_seq_map_at(self.entries@, 0);
            } else {
                lemma_seq_map_empty(self.entries@);
            }
        }
        self.entries.len() == 0
    }

    /// The position of `key` in the entry list, if present.
    pub fn find(&self, key: u64) -> (r: Option<usize>)
        requires
            self.wf(),
        ensures
            match r {
                Some(i) => i < self.entries@.len() && self.entries@[i as int].0 == key
                    && self@.contains_key(key) && self@[key] == self.entries@[i as int].1,
                None => !self@.contains_key(key),
            },
    {
        let mut i: usize = 0;
        while i < self.entries.len()
            invariant
                self.wf(),
                i <= self.entries@.len(),
                forall|j: int| 0 <= j < i ==> #[trigger] self.entries@[j].0 != key,
            decreases self.entries@.len() - i,
        {
            if self.entries[i].0 == key {
                proof {
                    lemma_seq_map_at(self.entries@, i as int);
                }
                return Some(i);
            }
            i = i + 1;
        }
        None
    }

    /// The value recorded for `key`, by reference.
    pub fn get_ref(&self, key: u64) -> (r: Option<&V>)
        requires
            self.wf(),
        ensures
            match r {
                Some(v) => self@.contains_key(key) && self@[key] == *v,
                None => !self@.contains_key(key),
            },
    {
        match self.find(key) {
            Some(i) => Some(&self.entries[i].1),
            None => None,
        }
    }

    /// Whether `key` is recorded.
    pub fn contains(&self, key: u64) -> (r: bool)
        requires
            self.wf(),
        ensures
            r == self@.contains_key(key),
    {
        self.find(key).is_some()
    }

    /// Records `key` with `value`, replacing any previous record in place; a new key
    /// goes at the end.
    pub fn insert(&mut self, key: u64, value: V)
        requires
            old(self).wf(),
        ensures
            final(self).wf(),
            final(self)@ == old(self)@.insert(key, value),
            final(self).entries@ == entries_insert(old(self).entries@, key, value),
    {
        match self.find(key) {
            Some(i) => {
                proof {
                    lemma_seq_map_update(self.entries@, i as int, (key, value));
                    assert(seq_has_key(self.entries@, key));
                    let j = choose|j: int| 0 <= j < self.entries@.len() && #[trigger] self.entries@[j].0 == key;
                    assert(j == i);
                }
                self.entries.set(i, (key, value));
            },
            None => {
                proof {
                    lemma_seq_map_push(self.entries@, (key, value));
                    if seq_has_key(self.entries@, key) {
                        let j = choose|j: int| 0 <= j < self.entries@.len() && #[trigger] self.entries@[j].0 == key;
                        lemma_seq_map_at(self.entries@, j);
                    }
                }
                self.entries.push((key, value));
            },
        }
    }

    /// Forgets `key`.
    pub fn remove(&mut self, key: u64)
        requires
            old(self).wf(),
        ensures
            final(self).wf(),
            final(self)@ == old(self)@.remove(key),
    {
        match self.find(key) {
            Some(i) => {
                proof {
                    lemma_seq_map_remove(self.entries@, i as int);
                }
                self.entries.remove(i);
            },
            None => {
                assert(self@.remove(key) =~= self@);
            },
        }
    }
}

impl<V: Copy> VecMap<V> {
    /// The value recorded for `key`.
    pub fn get(&self, key: u64) -> (r: Option<V>)
        requires
            self.wf(),
        ensures
            match r {
                Some(v) => self@.contains_key(key) && self@[key] == v,
                None => !self@.contains_key(key),
            },
    {
        match self.find(key) {
            Some(i) => Some(self.entries[i].1),
            None => None,
        }
    }

    /// The `i`-th entry, in insertion order.
    pub fn entry_at(&self, i: usize) -> (e: (u64, V))
        requires
            self.wf(),
            i < self.entries@.len(),
        ensures
            e == self.entries@[i as int],
            self@.contains_key(e.0),
            self@[e.0] == e.1,
    {
        proof {
            lemma_seq_map_at(self.entries@, i as int);
        }
        self.entries[i]
    }

    /// An independent copy of the map.
    pub fn copy(&self) -> (r: VecMap<V>)
        ensures
            r.entries@ == self.entries@,
            r@ == self@,
            r.wf() == self.wf(),
    {
        let mut entries: Vec<(u64, V)> = Vec::new();
        for i in 0..self.entries.len()
            invariant
                entries@ == self.entries@.take(i as int),
        {
            entries.push(self.entries[i]);
            assert(entries@ =~= self.entries@.take(i + 1));
        }
        assert(entries@ =~= self.entries@);
        VecMap { entries }
    }
}

/// What a function map holds for a key after one more value is recorded for it, given
/// what it held (`None` when the key was absent): the value if every value so far was
/// the same, `None` once two differ.
pub open spec fn fm_step(cur: Option<Option<u64>>, value: u64) -> Option<u64> {
    match cur {
        None => Some(value),
        Some(Some(v)) => if v == value { Some(value) } else { None },
        Some(None) => None,
    }
}

/// What a function map holds for a key after `values` were recorded in order for an
/// absent key.
pub open spec fn fm_fold(values: Seq<u64>) -> Option<Option<u64>>
    decreases values.len(),
{
    if values.len() == 0 {
        None
    } else {
        Some(fm_step(fm_fold(values.drop_last()), values.last()))
    }
}

/// A partial function being discovered from observations: each key keeps the one value
/// it has been seen with, or `None` once it was seen with two different values or was
/// invalidated.
pub struct FunctionMap {
    pub map: VecMap<Option<u64>>,
}

impl FunctionMap {
    pub open spec fn wf(&self) -> bool {
        self.map.wf()
    }

    /// An empty map.
    pub fn new() -> (r: FunctionMap)
        ensures
            r.wf(),
            r.map@ == Map::<u64, Option<u64>>::empty(),
    {
        FunctionMap { map: VecMap::new() }
    }

    /// Records that `domain` maps to `value`; returns whether `domain` is now known to
    /// map to no single value.
    pub fn insert(&mut self, domain: u64, value: u64) -> (r: bool)
        requires
            old(self).wf(),
        ensures
            final(self).wf(),
            final(self).map@ == old(self).map@.insert(domain, fm_step(
                if old(self).map@.contains_key(domain) { Some(old(self).map@[domain]) } else { None },
                value,
            )),
            r == fm_step(
                if old(self).map@.contains_key(domain) { Some(old(self).map@[domain]) } else { None },
                value,
            ) is None,
    {
        let next = match self.map.get(domain) {
            Some(Some(v)) => if v == value { Some(value) } else { None },
            Some(None) => None,
            None => Some(value),
        };
        self.map.insert(domain, next);
        next.is_none()
    }

    /// Marks `domain` as mapping to no single value.
    pub fn invalidate(&mut self, domain: u64)
        requires
            old(self).wf(),
        ensures
            final(self).wf(),
            final(self).map@ == old(self).map@.insert(domain, None),
    {
        self.map.insert(domain, None);
    }
}

/// A key of a function map keeps a value exactly when it was recorded at least once
/// and always with that same value.
pub proof fn lemma_function_map_consistent(values: Seq<u64>, v: u64)
    ensures
        fm_fold(values) == Some(Some(v)) <==> (values.len() > 0 && forall|i: int| 0 <= i < values.len() ==> values[i] == v),
    decreases values.len(),
{
    if values.len() > 0 {
        let init = values.drop_last();
        lemma_function_map_consistent(init, v);
        if fm_fold(values) == Some(Some(v)) {
            assert(values.last() == v);
            if init.len() > 0 {
                assert(fm_fold(init) == Some(Some(v)));
            }
            assert forall|i: int| 0 <= i < values.len() implies values[i] == v by {
                if i < values.len() - 1 {
                    assert(init[i] == values[i]);
                }
            }
        }
        if forall|i: int| 0 <= i < values.len() ==> values[i] == v {
            assert(values[values.len() - 1] == v);
            if init.len() > 0 {
                assert forall|i: int| 0 <= i < init.len() implies init[i] == v by {
                    assert(values[i] == v);
                }
            }
        }
    }
}

} // verus!
