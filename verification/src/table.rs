use vstd::prelude::*;

verus! {

/// Keys of a [`Table`]: compared by their view.
pub trait TableKey: Sized {
    type KeyView;

    spec fn key_view(&self) -> Self::KeyView;

    fn same_key(&self, other: &Self) -> (r: bool)
        ensures
            r == (self.key_view() == other.key_view()),
    ;

    fn clone_key(&self) -> (r: Self)
        ensures
            r.key_view() == self.key_view(),
    ;
}

impl TableKey for String {
    type KeyView = Seq<char>;

    open spec fn key_view(&self) -> Seq<char> {
        self@
    }

    fn same_key(&self, other: &Self) -> (r: bool) {
        self.eq(other)
    }

    fn clone_key(&self) -> (r: Self) {
        self.clone()
    }
}

pub open spec fn string_views(v: Seq<String>) -> Seq<Seq<char>> {
    v.map_values(|s: String| s@)
}

impl TableKey for Vec<String> {
    type KeyView = Seq<Seq<char>>;

    open spec fn key_view(&self) -> Seq<Seq<char>> {
        string_views(self@)
    }

    fn same_key(&self, other: &Self) -> (r: bool) {
        if self.len() != other.len() {
            return false;
        }
        let mut i: usize = 0;
        while i < self.len()
            invariant
                self@.len() == other@.len(),
                i <= self@.len(),
                forall|j: int| 0 <= j < i ==> self@[j]@ == other@[j]@,
            decreases self@.len() - i,
        {
            if self[i] != other[i] {
                assert(string_views(self@)[i as int] == self@[i as int]@);
                assert(string_views(other@)[i as int] == other@[i as int]@);
                return false;
            }
            i += 1;
        }
        assert(string_views(self@) =~= string_views(other@));
        true
    }

    fn clone_key(&self) -> (r: Self) {
        let mut r: Vec<String> = Vec::new();
        let mut i: usize = 0;
        while i < self.len()
            invariant
                i <= self@.len(),
                r@.len() == i,
                forall|j: int| 0 <= j < i ==> r@[j]@ == self@[j]@,
            decreases self@.len() - i,
        {
            r.push(self[i].clone());
            i += 1;
        }
        assert(string_views(r@) =~= string_views(self@));
        r
    }
}

/// Each entry with its key by its view.
pub open spec fn entry_views<K: TableKey>(e: Seq<(K, String)>) -> Seq<(K::KeyView, Seq<char>)> {
    e.map_values(|x: (K, String)| (x.0.key_view(), x.1@))
}

/// No key occurs twice.
pub open spec fn unique_keys<KV>(p: Seq<(KV, Seq<char>)>) -> bool {
    forall|i: int, j: int|
        0 <= i < p.len() && 0 <= j < p.len() && i != j ==> #[trigger] p[i].0 != #[trigger] p[j].0
}

pub open spec fn has_key<KV>(p: Seq<(KV, Seq<char>)>, k: KV) -> bool {
    exists|i: int| 0 <= i < p.len() && #[trigger] p[i].0 == k
}

pub open spec fn key_index<KV>(p: Seq<(KV, Seq<char>)>, k: KV) -> int {
    choose|i: int| 0 <= i < p.len() && #[trigger] p[i].0 == k
}

/// The map that a list of pairs with distinct keys stands for.
pub open spec fn map_of_pairs<KV>(p: Seq<(KV, Seq<char>)>) -> Map<KV, Seq<char>> {
    Map::new(|k: KV| has_key(p, k), |k: KV| p[key_index(p, k)].1)
}

pub proof fn lemma_key_index<KV>(p: Seq<(KV, Seq<char>)>, i: int)
    requires
        unique_keys(p),
        0 <= i < p.len(),
    ensures
        key_index(p, p[i].0) == i,
        map_of_pairs(p).contains_key(p[i].0),
        map_of_pairs(p)[p[i].0] == p[i].1,
{
    assert(has_key(p, p[i].0));
    let j = key_index(p, p[i].0);
    assert(p[j].0 == p[i].0);
}

pub proof fn lemma_push<KV>(p: Seq<(KV, Seq<char>)>, k: KV, v: Seq<char>)
    requires
        unique_keys(p),
        !has_key(p, k),
    ensures
        unique_keys(p.push((k, v))),
        map_of_pairs(p.push((k, v))) == map_of_pairs(p).insert(k, v),
{
    let q = p.push((k, v));
    assert forall|i: int, j: int|
        0 <= i < q.len() && 0 <= j < q.len() && i != j implies #[trigger] q[i].0 != #[trigger] q[j].0 by {
        if i < p.len() && j < p.len() {
            assert(p[i].0 != p[j].0);
        } else if i < p.len() {
            assert(p[i].0 != k);
        } else {
            assert(p[j].0 != k);
        }
    }
    assert forall|x: KV| #[trigger] has_key(q, x) == (has_key(p, x) || x == k) by {
        if has_key(p, x) {
            let i = choose|i: int| 0 <= i < p.len() && #[trigger] p[i].0 == x;
            assert(q[i].0 == x);
        }
        if x == k {
            assert(q[p.len() as int].0 == x);
        }
        if has_key(q, x) && x != k {
            let i = choose|i: int| 0 <= i < q.len() && #[trigger] q[i].0 == x;
            assert(p[i].0 == x);
        }
    }
    assert forall|x: KV| #[trigger] map_of_pairs(q).contains_key(x) implies map_of_pairs(q)[x]
        == map_of_pairs(p).insert(k, v)[x] by {
        if x == k {
            lemma_key_index(q, p.len() as int);
        } else {
            let i = choose|i: int| 0 <= i < p.len() && #[trigger] p[i].0 == x;
            lemma_key_index(p, i);
            lemma_key_index(q, i);
        }
    }
    assert(map_of_pairs(q) =~= map_of_pairs(p).insert(k, v));
}

pub proof fn lemma_update<KV>(p: Seq<(KV, Seq<char>)>, i: int, v: Seq<char>)
    requires
        unique_keys(p),
        0 <= i < p.len(),
    ensures
        unique_keys(p.update(i, (p[i].0, v))),
        map_of_pairs(p.update(i, (p[i].0, v))) == map_of_pairs(p).insert(p[i].0, v),
{
    let k = p[i].0;
    let q = p.update(i, (k, v));
    assert forall|a: int, b: int|
        0 <= a < q.len() && 0 <= b < q.len() && a != b implies #[trigger] q[a].0 != #[trigger] q[b].0 by {
        assert(p[a].0 != p[b].0);
    }
    assert forall|x: KV| #[trigger] has_key(q, x) == has_key(p, x) by {
        if has_key(p, x) {
            let j = choose|j: int| 0 <= j < p.len() && #[trigger] p[j].0 == x;
            assert(q[j].0 == x);
        }
        if has_key(q, x) {
            let j = choose|j: int| 0 <= j < q.len() && #[trigger] q[j].0 == x;
            assert(p[j].0 == x);
        }
    }
    assert forall|x: KV| #[trigger] map_of_pairs(q).contains_key(x) implies map_of_pairs(q)[x]
        == map_of_pairs(p).insert(k, v)[x] by {
        let j = choose|j: int| 0 <= j < q.len() && #[trigger] q[j].0 == x;
        lemma_key_index(q, j);
        assert(p[j].0 == x);
        lemma_key_index(p, j);
        lemma_key_index(p, i);
    }
    assert(map_of_pairs(q).dom() =~= map_of_pairs(p).insert(k, v).dom()) by {
        lemma_key_index(p, i);
    }
    assert(map_of_pairs(q) =~= map_of_pairs(p).insert(k, v));
}

/// A map from keys to strings, kept as a list of entries in which no key occurs
/// twice; an entry keeps its place when its value is replaced.
#[derive(Debug)]
pub struct Table<K: TableKey> {
    entries: Vec<(K, String)>,
}

impl<K: TableKey> Table<K> {
    /// The entries, each key by its view.
    pub closed spec fn pairs(&self) -> Seq<(K::KeyView, Seq<char>)> {
        entry_views(self.entries@)
    }

    #[verifier::type_invariant]
    closed spec fn keys_distinct(&self) -> bool {
        unique_keys(self.pairs())
    }

    pub closed spec fn view(&self) -> Map<K::KeyView, Seq<char>> {
        map_of_pairs(self.pairs())
    }

    pub fn new() -> (r: Self)
        ensures
            r.view() == Map::<K::KeyView, Seq<char>>::empty(),
            r.pairs().len() == 0,
    {
        let r = Table { entries: Vec::new() };
        assert(r.pairs() =~= Seq::<(K::KeyView, Seq<char>)>::empty());
        assert(map_of_pairs(r.pairs()) =~= Map::<K::KeyView, Seq<char>>::empty());
        r
    }

    fn position(&self, key: &K) -> (r: Option<usize>)
        ensures
            match r {
                Some(i) => i < self.pairs().len() && self.pairs()[i as int].0 == key.key_view(),
                None => !has_key(self.pairs(), key.key_view()),
            },
    {
        let mut i: usize = 0;
        while i < self.entries.len()
            invariant
                i <= self.entries@.len(),
                self.pairs().len() == self.entries@.len(),
                forall|j: int| 0 <= j < i ==> #[trigger] self.pairs()[j].0 != key.key_view(),
            decreases self.entries@.len() - i,
        {
            assert(self.pairs()[i as int].0 == self.entries@[i as int].0.key_view());
            if self.entries[i].0.same_key(key) {
                return Some(i);
            }
            i += 1;
        }
        None
    }

    /// Maps `key` to `value`, replacing a value it had.
    pub fn insert(&mut self, key: K, value: String)
        ensures
            final(self).view() == old(self).view().insert(key.key_view(), value@),
    {
        proof {
            use_type_invariant(&*self);
        }
        let ghost kv = key.key_view();
        let ghost old_pairs = self.pairs();
        match self.position(&key) {
            Some(i) => {
                let old_key = self.entries[i].0.clone_key();
                proof {
                    lemma_update(old_pairs, i as int, value@);
                }
                let ghost v = value@;
                let mut entries: Vec<(K, String)> = Vec::new();
                std::mem::swap(&mut entries, &mut self.entries);
                entries.set(i, (old_key, value));
                assert(entry_views(entries@) =~= old_pairs.update(i as int, (old_pairs[i as int].0, v)));
                self.entries = entries;
            },
            None => {
                proof {
                    lemma_push(old_pairs, kv, value@);
                }
                let ghost v = value@;
                let mut entries: Vec<(K, String)> = Vec::new();
                std::mem::swap(&mut entries, &mut self.entries);
                entries.push((key, value));
                assert(entry_views(entries@) =~= old_pairs.push((kv, v)));
                self.entries = entries;
            },
        }
    }

    /// The value of `key`, if it has one.
    pub fn get(&self, key: &K) -> (r: Option<&String>)
        ensures
            match r {
                Some(v) => self.view().contains_key(key.key_view()) && v@ == self.view()[key.key_view()],
                None => !self.view().contains_key(key.key_view()),
            },
    {
        proof {
            use_type_invariant(self);
        }
        match self.position(key) {
            Some(i) => {
                proof {
                    lemma_key_index(self.pairs(), i as int);
                }
                assert(self.pairs()[i as int].1 == self.entries@[i as int].1@);
                Some(&self.entries[i].1)
            },
            None => None,
        }
    }

    pub fn contains_key(&self, key: &K) -> (r: bool)
        ensures
            r == self.view().contains_key(key.key_view()),
    {
        self.get(key).is_some()
    }

    /// The entries in the order their keys were first inserted.
    pub fn entries(&self) -> (r: &Vec<(K, String)>)
        ensures
            r@.len() == self.pairs().len(),
            unique_keys(self.pairs()),
            self.view() == map_of_pairs(self.pairs()),
            forall|i: int|
                0 <= i < r@.len() ==> (#[trigger] r@[i]).0.key_view() == self.pairs()[i].0
                    && r@[i].1@ == self.pairs()[i].1,
            forall|i: int|
                0 <= i < r@.len() ==> self.view().contains_key(#[trigger] self.pairs()[i].0)
                    && self.view()[self.pairs()[i].0] == self.pairs()[i].1,
            forall|k: K::KeyView|
                #[trigger] self.view().contains_key(k) ==> exists|i: int|
                    0 <= i < r@.len() && #[trigger] self.pairs()[i].0 == k,
    {
        proof {
            use_type_invariant(self);
            assert forall|i: int| 0 <= i < self.entries@.len() implies self.view().contains_key(
                #[trigger] self.pairs()[i].0,
            ) && self.view()[self.pairs()[i].0] == self.pairs()[i].1 by {
                lemma_key_index(self.pairs(), i);
            }
        }
        &self.entries
    }

    /// Every entry of `other` inserted in turn: `other` wins where both have a key.
    pub fn extend(&mut self, other: &Table<K>)
        ensures
            final(self).view() == old(self).view().union_prefer_right(other.view()),
    {
        proof {
            use_type_invariant(other);
        }
        let ghost p = other.pairs();
        let ghost start = self.view();
        let mut j: usize = 0;
        assert(map_of_pairs(p.take(0)) =~= Map::<K::KeyView, Seq<char>>::empty());
        assert(start.union_prefer_right(map_of_pairs(p.take(0))) =~= start);
        while j < other.entries.len()
            invariant
                p == other.pairs(),
                unique_keys(p),
                j <= p.len(),
                p.len() == other.entries@.len(),
                self.view() == start.union_prefer_right(map_of_pairs(p.take(j as int))),
            decreases p.len() - j,
        {
            let key = other.entries[j].0.clone_key();
            let value = other.entries[j].1.clone();
            assert(p[j as int] == (key.key_view(), value@));
            proof {
                lemma_take_push(p, j as int);
            }
            self.insert(key, value);
            assert(self.view() =~= start.union_prefer_right(map_of_pairs(p.take(j + 1))));
            j += 1;
        }
        assert(p.take(p.len() as int) == p);
    }
}

impl<K: TableKey> Clone for Table<K> {
    fn clone(&self) -> (r: Self)
        ensures
            r.view() == self.view(),
    {
        proof {
            use_type_invariant(self);
        }
        let mut entries: Vec<(K, String)> = Vec::new();
        let mut i: usize = 0;
        while i < self.entries.len()
            invariant
                i <= self.entries@.len(),
                self.pairs().len() == self.entries@.len(),
                entry_views(entries@) == self.pairs().take(
                    i as int,
                ),
            decreases self.entries@.len() - i,
        {
            let k = self.entries[i].0.clone_key();
            let v = self.entries[i].1.clone();
            let ghost before = entries@;
            entries.push((k, v));
            assert(entry_views(entries@) =~= entry_views(before).push(self.pairs()[i as int]));
            assert(entry_views(entries@) =~= self.pairs().take(
                i + 1,
            ));
            i += 1;
        }
        assert(self.pairs().take(self.pairs().len() as int) =~= self.pairs());
        Table { entries }
    }
}

pub proof fn lemma_take_push<KV>(p: Seq<(KV, Seq<char>)>, j: int)
    requires
        unique_keys(p),
        0 <= j < p.len(),
    ensures
        map_of_pairs(p.take(j + 1)) == map_of_pairs(p.take(j)).insert(p[j].0, p[j].1),
{
    let t = p.take(j);
    assert(p.take(j + 1) =~= t.push(p[j]));
    assert(unique_keys(t)) by {
        assert forall|a: int, b: int|
            0 <= a < t.len() && 0 <= b < t.len() && a != b implies #[trigger] t[a].0 != #[trigger] t[b].0 by {
            assert(p[a].0 != p[b].0);
        }
    }
    assert(!has_key(t, p[j].0)) by {
        if has_key(t, p[j].0) {
            let a = choose|a: int| 0 <= a < t.len() && #[trigger] t[a].0 == p[j].0;
            assert(p[a].0 == p[j].0);
        }
    }
    lemma_push(t, p[j].0, p[j].1);
}

} // verus!
