//! Maps and sets that keep their keys in ascending order, and a stable sort.
//!
//! Keys are ordered by a mathematical model of their contents, so two keys
//! with equal models count as the same key.
use vstd::prelude::*;

use crate::text;

verus! {

/// A key with a total order on the model of its contents.
pub trait OrderedKey: Sized {
    /// What a key stands for.
    type Model;

    spec fn model(&self) -> Self::Model;

    /// `a` comes before `b`.
    spec fn before(a: Self::Model, b: Self::Model) -> bool;

    proof fn irreflexive(a: Self::Model)
        ensures
            !Self::before(a, a),
    ;

    proof fn transitive(a: Self::Model, b: Self::Model, c: Self::Model)
        requires
            Self::before(a, b),
            Self::before(b, c),
        ensures
            Self::before(a, c),
    ;

    proof fn total(a: Self::Model, b: Self::Model)
        ensures
            a == b || Self::before(a, b) || Self::before(b, a),
    ;

    fn is_before(&self, other: &Self) -> (r: bool)
        ensures
            r == Self::before(self.model(), other.model()),
    ;
}

impl OrderedKey for String {
    type Model = Seq<char>;

    open spec fn model(&self) -> Seq<char> {
        self@
    }

    open spec fn before(a: Seq<char>, b: Seq<char>) -> bool {
        text::text_before(a, b)
    }

    proof fn irreflexive(a: Seq<char>) {
        text::lemma_text_irreflexive(a);
    }

    proof fn transitive(a: Seq<char>, b: Seq<char>, c: Seq<char>) {
        text::lemma_text_transitive(a, b, c);
    }

    proof fn total(a: Seq<char>, b: Seq<char>) {
        text::lemma_text_total(a, b);
    }

    fn is_before(&self, other: &Self) -> (r: bool) {
        text::text_is_before(self.as_str(), other.as_str())
    }
}

/// The keys of `s` ascend, each before every later one.
pub open spec fn keys_ascend<K: OrderedKey, V>(s: Seq<(K, V)>) -> bool {
    forall|i: int, j: int|
        0 <= i < j < s.len() ==> K::before(
            #[trigger] s[i].0.model(),
            #[trigger] s[j].0.model(),
        )
}

/// Some entry of `s` has the key `k`.
pub open spec fn has_key<K: OrderedKey, V>(s: Seq<(K, V)>, k: K::Model) -> bool {
    exists|i: int| 0 <= i < s.len() && #[trigger] s[i].0.model() == k
}

/// The place of an entry of `s` with the key `k`.
pub open spec fn place_of<K: OrderedKey, V>(s: Seq<(K, V)>, k: K::Model) -> int {
    choose|i: int| 0 <= i < s.len() && #[trigger] s[i].0.model() == k
}

/// The map that the entries of `s` make up.
pub open spec fn as_map<K: OrderedKey, V>(s: Seq<(K, V)>) -> Map<K::Model, V> {
    Map::new(|k: K::Model| has_key(s, k), |k: K::Model| s[place_of(s, k)].1)
}

/// In an ascending sequence each entry is what the map holds for its key.
pub proof fn lemma_entry<K: OrderedKey, V>(s: Seq<(K, V)>, i: int)
    requires
        keys_ascend(s),
        0 <= i < s.len(),
    ensures
        as_map(s).contains_key(s[i].0.model()),
        as_map(s)[s[i].0.model()] == s[i].1,
        place_of(s, s[i].0.model()) == i,
{
    let k = s[i].0.model();
    assert(has_key(s, k));
    let j = place_of(s, k);
    K::irreflexive(k);
    if i < j {
        assert(K::before(s[i].0.model(), s[j].0.model()));
    } else if j < i {
        assert(K::before(s[j].0.model(), s[i].0.model()));
    }
}

/// A map whose keys are kept in ascending order.
#[derive(Debug)]
#[verifier::reject_recursive_types(K)]
#[verifier::reject_recursive_types(V)]
pub struct OrderedMap<K: OrderedKey, V> {
    items: Vec<(K, V)>,
}

impl<K: OrderedKey, V> View for OrderedMap<K, V> {
    type V = Map<K::Model, V>;

    open spec fn view(&self) -> Map<K::Model, V> {
        as_map(self.listed())
    }
}

impl<K: OrderedKey, V> OrderedMap<K, V> {
    #[verifier::type_invariant]
    spec fn ascending(self) -> bool {
        keys_ascend(self.items@)
    }

    /// The entries in ascending order of their keys.
    pub closed spec fn listed(&self) -> Seq<(K, V)> {
        self.items@
    }

    /// An empty map.
    pub fn new() -> (r: Self)
        ensures
            r@ == Map::<K::Model, V>::empty(),
            r.listed().len() == 0,
    {
        let r = OrderedMap { items: Vec::new() };
        proof {
            assert(r@ =~= Map::<K::Model, V>::empty());
        }
        r
    }

    /// The entries in ascending order of their keys.
    pub fn entries(&self) -> (r: &Vec<(K, V)>)
        ensures
            r@ == self.listed(),
            keys_ascend(r@),
            self@ == as_map(r@),
    {
        proof {
            use_type_invariant(self);
        }
        &self.items
    }

    /// The number of entries.
    pub fn len(&self) -> (r: usize)
        ensures
            r == self.listed().len(),
            r == 0 <==> self@ == Map::<K::Model, V>::empty(),
    {
        proof {
            use_type_invariant(self);
            if self.items@.len() == 0 {
                assert(self@ =~= Map::<K::Model, V>::empty());
            } else {
                lemma_entry(self.items@, 0);
            }
        }
        self.items.len()
    }

    /// The number of entries whose keys come before `key`.
    fn rank(&self, key: &K) -> (r: usize)
        ensures
            r <= self.items@.len(),
            keys_ascend(self.items@),
            forall|i: int|
                0 <= i < r ==> K::before(#[trigger] self.items@[i].0.model(), key.model()),
            forall|i: int|
                r <= i < self.items@.len() ==> !K::before(
                    #[trigger] self.items@[i].0.model(),
                    key.model(),
                ),
    {
        proof {
            use_type_invariant(self);
        }
        let mut lo: usize = 0;
        let mut hi: usize = self.items.len();
        while lo < hi
            invariant
                lo <= hi <= self.items@.len(),
                keys_ascend(self.items@),
                forall|i: int|
                    0 <= i < lo ==> K::before(#[trigger] self.items@[i].0.model(), key.model()),
                forall|i: int|
                    hi <= i < self.items@.len() ==> !K::before(
                        #[trigger] self.items@[i].0.model(),
                        key.model(),
                    ),
            decreases hi - lo,
        {
            let mid: usize = lo + (hi - lo) / 2;
            if self.items[mid].0.is_before(key) {
                proof {
                    assert forall|i: int| 0 <= i <= mid implies K::before(
                        #[trigger] self.items@[i].0.model(),
                        key.model(),
                    ) by {
                        if i < mid {
                            K::transitive(
                                self.items@[i].0.model(),
                                self.items@[mid as int].0.model(),
                                key.model(),
                            );
                        }
                    }
                }
                lo = mid + 1;
            } else {
                proof {
                    assert forall|i: int| mid <= i < self.items@.len() implies !K::before(
                        #[trigger] self.items@[i].0.model(),
                        key.model(),
                    ) by {
                        if i > mid && K::before(self.items@[i].0.model(), key.model()) {
                            K::transitive(
                                self.items@[mid as int].0.model(),
                                self.items@[i].0.model(),
                                key.model(),
                            );
                        }
                    }
                }
                hi = mid;
            }
        }
        lo
    }

    /// The place of `key`, if it is there.
    fn find(&self, key: &K) -> (r: Option<usize>)
        ensures
            keys_ascend(self.items@),
            match r {
                Some(i) => i < self.items@.len() && self.items@[i as int].0.model() == key.model(),
                None => !self@.contains_key(key.model()),
            },
    {
        let i: usize = self.rank(key);
        if i < self.items.len() && !key.is_before(&self.items[i].0) {
            proof {
                K::total(key.model(), self.items@[i as int].0.model());
            }
            Some(i)
        } else {
            proof {
                if self@.contains_key(key.model()) {
                    let j = place_of(self.items@, key.model());
                    K::irreflexive(key.model());
                    if j < i {
                        assert(K::before(self.items@[j].0.model(), key.model()));
                    } else if i < j {
                        K::transitive(
                            key.model(),
                            self.items@[i as int].0.model(),
                            self.items@[j].0.model(),
                        );
                    }
                }
            }
            None
        }
    }

    /// The value of `key`, if it is there.
    pub fn get(&self, key: &K) -> (r: Option<&V>)
        ensures
            match r {
                Some(v) => self@.contains_key(key.model()) && *v == self@[key.model()],
                None => !self@.contains_key(key.model()),
            },
    {
        match self.find(key) {
            Some(i) => {
                proof {
                    lemma_entry(self.items@, i as int);
                }
                Some(&self.items[i].1)
            },
            None => None,
        }
    }

    /// Whether `key` is there.
    pub fn contains_key(&self, key: &K) -> (r: bool)
        ensures
            r == self@.contains_key(key.model()),
    {
        self.get(key).is_some()
    }

    /// Adds `key` with `value` unless the key is there already. Says whether
    /// it was added.
    pub fn insert_new(&mut self, key: K, value: V) -> (r: bool)
        ensures
            r == !old(self)@.contains_key(key.model()),
            r ==> final(self)@ == old(self)@.insert(key.model(), value),
            r ==> final(self).listed().to_multiset() == old(self).listed().to_multiset().insert(
                (key, value),
            ),
            !r ==> final(self)@ == old(self)@,
            !r ==> final(self).listed() == old(self).listed(),
    {
        if self.contains_key(&key) {
            return false;
        }
        let at: usize = self.rank(&key);
        let ghost before = self.items@;
        let mut items: Vec<(K, V)> = Vec::new();
        std::mem::swap(&mut items, &mut self.items);
        proof {
            assert forall|i: int| at <= i < before.len() implies K::before(
                key.model(),
                #[trigger] before[i].0.model(),
            ) by {
                K::total(key.model(), before[i].0.model());
                lemma_entry(before, i);
            }
            lemma_insert_entry(before, at as int, key, value);
        }
        items.insert(at, (key, value));
        proof {
            lemma_insert_multiset(before, at as int, (key, value));
        }
        self.items = items;
        true
    }

    /// Gives `key` the value `value`, in place of any value that it had.
    pub fn insert(&mut self, key: K, value: V)
        ensures
            final(self)@ == old(self)@.insert(key.model(), value),
    {
        match self.find(&key) {
            Some(i) => {
                let ghost before = self.items@;
                let mut items: Vec<(K, V)> = Vec::new();
                std::mem::swap(&mut items, &mut self.items);
                proof {
                    lemma_replace_entry(before, i as int, key, value);
                }
                items.set(i, (key, value));
                self.items = items;
            },
            None => {
                self.insert_new(key, value);
            },
        }
    }

    /// Takes `key` out, if it is there.
    pub fn remove(&mut self, key: &K)
        ensures
            final(self)@ == old(self)@.remove(key.model()),
    {
        match self.find(key) {
            Some(i) => {
                let ghost before = self.items@;
                let mut items: Vec<(K, V)> = Vec::new();
                std::mem::swap(&mut items, &mut self.items);
                proof {
                    lemma_remove_entry(before, i as int);
                }
                items.remove(i);
                self.items = items;
            },
            None => {
                proof {
                    assert(self@.remove(key.model()) =~= self@);
                }
            },
        }
    }
}

/// An insertion adds one item.
proof fn lemma_insert_multiset<A>(s: Seq<A>, at: int, x: A)
    requires
        0 <= at <= s.len(),
    ensures
        s.insert(at, x).to_multiset() == s.to_multiset().insert(x),
{
    let t = s.insert(at, x);
    t.to_multiset_ensures();
    assert(t.remove(at) =~= s);
    assert(t.contains(t[at]));
    assert(t.to_multiset() =~= t.to_multiset().remove(x).insert(x));
}

/// What an insertion at the right place does to the map.
proof fn lemma_insert_entry<K: OrderedKey, V>(s: Seq<(K, V)>, at: int, key: K, value: V)
    requires
        keys_ascend(s),
        0 <= at <= s.len(),
        forall|i: int| 0 <= i < at ==> K::before(#[trigger] s[i].0.model(), key.model()),
        forall|i: int| at <= i < s.len() ==> K::before(key.model(), #[trigger] s[i].0.model()),
    ensures
        keys_ascend(s.insert(at, (key, value))),
        as_map(s.insert(at, (key, value))) == as_map(s).insert(key.model(), value),
{
    let t = s.insert(at, (key, value));
    assert forall|i: int, j: int| 0 <= i < j < t.len() implies K::before(
        #[trigger] t[i].0.model(),
        #[trigger] t[j].0.model(),
    ) by {
        let i0 = if i < at { i } else { i - 1 };
        let j0 = if j < at { j } else { j - 1 };
        if i != at && j != at {
            assert(K::before(s[i0].0.model(), s[j0].0.model()));
        } else if i == at {
            assert(K::before(key.model(), s[j0].0.model()));
        } else {
            assert(K::before(s[i0].0.model(), key.model()));
        }
    }
    assert forall|k: K::Model| as_map(t).contains_key(k) == #[trigger] as_map(s).insert(
        key.model(),
        value,
    ).contains_key(k) by {
        if has_key(t, k) {
            let i = place_of(t, k);
            if i < at {
                assert(s[i].0.model() == k);
            } else if i > at {
                assert(s[i - 1].0.model() == k);
            }
        }
        if has_key(s, k) {
            let i = place_of(s, k);
            if i < at {
                assert(t[i].0.model() == k);
            } else {
                assert(t[i + 1].0.model() == k);
            }
        }
        assert(t[at].0.model() == key.model());
    }
    assert forall|k: K::Model| #[trigger] as_map(t).contains_key(k) implies as_map(t)[k] == as_map(
        s,
    ).insert(key.model(), value)[k] by {
        let i = place_of(t, k);
        lemma_entry(t, i);
        if i < at {
            lemma_entry(s, i);
            K::irreflexive(k);
            assert(K::before(s[i].0.model(), key.model()));
        } else if i > at {
            lemma_entry(s, i - 1);
            K::irreflexive(k);
            assert(K::before(key.model(), s[i - 1].0.model()));
        }
    }
    assert(as_map(t) =~= as_map(s).insert(key.model(), value));
}

/// What replacing an entry does to the map.
proof fn lemma_replace_entry<K: OrderedKey, V>(s: Seq<(K, V)>, at: int, key: K, value: V)
    requires
        keys_ascend(s),
        0 <= at < s.len(),
        s[at].0.model() == key.model(),
    ensures
        keys_ascend(s.update(at, (key, value))),
        as_map(s.update(at, (key, value))) == as_map(s).insert(key.model(), value),
{
    let t = s.update(at, (key, value));
    assert forall|i: int| 0 <= i < s.len() implies #[trigger] t[i].0.model()
        == s[i].0.model() by {}
    assert forall|i: int, j: int| 0 <= i < j < t.len() implies K::before(
        #[trigger] t[i].0.model(),
        #[trigger] t[j].0.model(),
    ) by {
        assert(K::before(s[i].0.model(), s[j].0.model()));
    }
    assert forall|k: K::Model| as_map(t).contains_key(k) == #[trigger] as_map(s).insert(
        key.model(),
        value,
    ).contains_key(k) by {
        if has_key(t, k) {
            assert(s[place_of(t, k)].0.model() == k);
        }
        if has_key(s, k) {
            assert(t[place_of(s, k)].0.model() == k);
        }
        assert(t[at].0.model() == key.model());
    }
    assert forall|k: K::Model| #[trigger] as_map(t).contains_key(k) implies as_map(t)[k] == as_map(
        s,
    ).insert(key.model(), value)[k] by {
        let i = place_of(t, k);
        lemma_entry(t, i);
        lemma_entry(s, i);
        lemma_entry(t, at);
    }
    assert(as_map(t) =~= as_map(s).insert(key.model(), value));
}

/// What taking an entry out does to the map.
proof fn lemma_remove_entry<K: OrderedKey, V>(s: Seq<(K, V)>, at: int)
    requires
        keys_ascend(s),
        0 <= at < s.len(),
    ensures
        keys_ascend(s.remove(at)),
        as_map(s.remove(at)) == as_map(s).remove(s[at].0.model()),
{
    let t = s.remove(at);
    let gone = s[at].0.model();
    assert forall|i: int, j: int| 0 <= i < j < t.len() implies K::before(
        #[trigger] t[i].0.model(),
        #[trigger] t[j].0.model(),
    ) by {
        let i0 = if i < at { i } else { i + 1 };
        let j0 = if j < at { j } else { j + 1 };
        assert(K::before(s[i0].0.model(), s[j0].0.model()));
    }
    assert forall|k: K::Model| as_map(t).contains_key(k) == #[trigger] as_map(s).remove(
        gone,
    ).contains_key(k) by {
        if has_key(t, k) {
            let i = place_of(t, k);
            let i0 = if i < at { i } else { i + 1 };
            lemma_entry(s, i0);
            lemma_entry(s, at);
        }
        if has_key(s, k) && k != gone {
            let i = place_of(s, k);
            let i0 = if i < at { i } else { i - 1 };
            assert(t[i0].0.model() == k);
        }
    }
    assert forall|k: K::Model| #[trigger] as_map(t).contains_key(k) implies as_map(t)[k] == as_map(
        s,
    ).remove(gone)[k] by {
        let i = place_of(t, k);
        let i0 = if i < at { i } else { i + 1 };
        lemma_entry(t, i);
        lemma_entry(s, i0);
        lemma_entry(s, at);
    }
    assert(as_map(t) =~= as_map(s).remove(gone));
}

/// The items of `s` ascend, each before every later one.
pub open spec fn items_ascend<K: OrderedKey>(s: Seq<K>) -> bool {
    forall|i: int, j: int|
        0 <= i < j < s.len() ==> K::before(#[trigger] s[i].model(), #[trigger] s[j].model())
}

/// Each model of `s` comes before every later one.
pub open spec fn models_ascend<K: OrderedKey>(s: Seq<K::Model>) -> bool {
    forall|i: int, j: int|
        0 <= i < j < s.len() ==> K::before(#[trigger] s[i], #[trigger] s[j])
}

/// In an ascending list nothing comes behind the last model.
proof fn lemma_last_is_greatest<K: OrderedKey>(s: Seq<K::Model>, m: K::Model)
    requires
        models_ascend::<K>(s),
        s.contains(m),
    ensures
        !K::before(s.last(), m),
{
    let i = choose|i: int| 0 <= i < s.len() && s[i] == m;
    K::irreflexive(m);
    if i < s.len() - 1 {
        assert(K::before(s[i], s[s.len() - 1]));
        if K::before(s.last(), m) {
            K::transitive(m, s.last(), m);
        }
    }
}

/// Without its last model an ascending list holds the others.
proof fn lemma_ascending_rest<K: OrderedKey>(s: Seq<K::Model>)
    requires
        models_ascend::<K>(s),
        s.len() > 0,
    ensures
        models_ascend::<K>(s.drop_last()),
        s.drop_last().to_set() == s.to_set().remove(s.last()),
{
    let rest = s.drop_last();
    assert forall|i: int, j: int| 0 <= i < j < rest.len() implies K::before(
        #[trigger] rest[i],
        #[trigger] rest[j],
    ) by {
        assert(K::before(s[i], s[j]));
    }
    assert forall|m: K::Model| #[trigger]
        rest.to_set().contains(m) <==> s.to_set().remove(s.last()).contains(m) by {
        if rest.contains(m) {
            let i = choose|i: int| 0 <= i < rest.len() && rest[i] == m;
            assert(s[i] == m);
            assert(K::before(s[i], s[s.len() - 1]));
            K::irreflexive(m);
        }
        if s.contains(m) && m != s.last() {
            let i = choose|i: int| 0 <= i < s.len() && s[i] == m;
            assert(rest[i] == m);
        }
    }
    assert(rest.to_set() =~= s.to_set().remove(s.last()));
}

/// Two ascending lists of the same models are the same.
pub proof fn lemma_ascending_unique<K: OrderedKey>(a: Seq<K::Model>, b: Seq<K::Model>)
    requires
        models_ascend::<K>(a),
        models_ascend::<K>(b),
        a.to_set() == b.to_set(),
    ensures
        a == b,
    decreases a.len(),
{
    if a.len() == 0 {
        if b.len() > 0 {
            assert(b.to_set().contains(b[0]));
            assert(a.to_set().contains(b[0]));
        }
        assert(a =~= b);
    } else {
        assert(a.to_set().contains(a.last()));
        assert(b.contains(a.last()));
        assert(b.to_set().contains(b.last()));
        assert(a.contains(b.last()));
        lemma_last_is_greatest::<K>(a, b.last());
        lemma_last_is_greatest::<K>(b, a.last());
        K::total(a.last(), b.last());
        lemma_ascending_rest::<K>(a);
        lemma_ascending_rest::<K>(b);
        lemma_ascending_unique::<K>(a.drop_last(), b.drop_last());
        assert(a =~= a.drop_last().push(a.last()));
        assert(b =~= b.drop_last().push(b.last()));
    }
}

/// The models of the items of `s`.
pub open spec fn models<K: OrderedKey>(s: Seq<K>) -> Set<K::Model> {
    Set::new(|m: K::Model| exists|i: int| 0 <= i < s.len() && #[trigger] s[i].model() == m)
}

/// A set whose items are kept in ascending order.
#[derive(Debug)]
#[verifier::reject_recursive_types(K)]
pub struct OrderedSet<K: OrderedKey> {
    map: OrderedMap<K, ()>,
}

impl<K: OrderedKey> View for OrderedSet<K> {
    type V = Set<K::Model>;

    closed spec fn view(&self) -> Set<K::Model> {
        self.map@.dom()
    }
}

impl<K: OrderedKey> OrderedSet<K> {
    /// An empty set.
    pub fn new() -> (r: Self)
        ensures
            r@ == Set::<K::Model>::empty(),
    {
        let r = OrderedSet { map: OrderedMap::new() };
        proof {
            assert(r@ =~= Set::<K::Model>::empty());
        }
        r
    }

    /// Adds `item` unless an equal one is there. Says whether it was added.
    pub fn insert(&mut self, item: K) -> (r: bool)
        ensures
            r == !old(self)@.contains(item.model()),
            final(self)@ == old(self)@.insert(item.model()),
    {
        let ghost before = self@;
        let r = self.map.insert_new(item, ());
        proof {
            assert(self@ =~= before.insert(item.model()));
        }
        r
    }

    /// Whether `item` is in the set.
    pub fn has(&self, item: &K) -> (r: bool)
        ensures
            r == self@.contains(item.model()),
    {
        self.map.contains_key(item)
    }

    /// Takes `item` out, if it is there.
    pub fn remove(&mut self, item: &K)
        ensures
            final(self)@ == old(self)@.remove(item.model()),
    {
        let ghost before = self@;
        self.map.remove(item);
        proof {
            assert(self@ =~= before.remove(item.model()));
        }
    }

    /// Whether nothing is in the set.
    pub fn is_empty(&self) -> (r: bool)
        ensures
            r == (self@ == Set::<K::Model>::empty()),
    {
        let n: usize = self.map.len();
        proof {
            if n == 0 {
                assert(self@ =~= Set::<K::Model>::empty());
            } else {
                assert(self.map@ != Map::<K::Model, ()>::empty());
                if self@ == Set::<K::Model>::empty() {
                    assert(self.map@ =~= Map::<K::Model, ()>::empty());
                }
            }
        }
        n == 0
    }

    /// The items in ascending order, each beside an empty value.
    pub fn entries(&self) -> (r: &Vec<(K, ())>)
        ensures
            keys_ascend(r@),
            self@ == as_map(r@).dom(),
    {
        self.map.entries()
    }

    /// The items in ascending order.
    pub fn into_items(self) -> (r: Vec<K>)
        ensures
            items_ascend(r@),
            models(r@) == self@,
    {
        let OrderedSet { map } = self;
        map.into_keys()
    }
}

impl OrderedSet<String> {
    /// Whether the text `item` is in the set.
    pub fn contains(&self, item: &str) -> (r: bool)
        ensures
            r == self@.contains(item@),
    {
        self.has(&item.to_owned())
    }
}

impl<K: OrderedKey, V> OrderedMap<K, V> {
    /// The keys in ascending order.
    pub fn into_keys(self) -> (r: Vec<K>)
        ensures
            items_ascend(r@),
            models(r@) == self@.dom(),
            r@.len() == self.listed().len(),
            forall|i: int| 0 <= i < r@.len() ==> r@[i] == #[trigger] self.listed()[i].0,
    {
        proof {
            use_type_invariant(&self);
        }
        let ghost all = self.items@;
        let OrderedMap { mut items } = self;
        let mut r: Vec<K> = Vec::new();
        let mut back: Vec<K> = Vec::new();
        while items.len() > 0
            invariant
                items@.len() + back@.len() == all.len(),
                items@ == all.take(items@.len() as int),
                forall|i: int|
                    0 <= i < back@.len() ==> #[trigger] back@[i] == all[all.len() - 1 - i].0,
            decreases items@.len(),
        {
            let ghost n = items@.len();
            let last = items.pop();
            match last {
                Some((k, _v)) => {
                    proof {
                        assert(k == all[n - 1].0);
                        assert(items@ =~= all.take(n - 1));
                    }
                    back.push(k);
                },
                None => {},
            }
        }
        while back.len() > 0
            invariant
                r@.len() + back@.len() == all.len(),
                forall|i: int|
                    0 <= i < back@.len() ==> #[trigger] back@[i] == all[all.len() - 1 - i].0,
                forall|i: int| 0 <= i < r@.len() ==> #[trigger] r@[i] == all[i].0,
            decreases back@.len(),
        {
            let ghost n = back@.len();
            let last = back.pop();
            match last {
                Some(k) => {
                    proof {
                        assert(k == all[all.len() - n].0);
                    }
                    r.push(k);
                },
                None => {},
            }
        }
        proof {
            assert forall|i: int, j: int| 0 <= i < j < r@.len() implies K::before(
                #[trigger] r@[i].model(),
                #[trigger] r@[j].model(),
            ) by {
                assert(K::before(all[i].0.model(), all[j].0.model()));
            }
            assert forall|m: K::Model| models(r@).contains(m) == #[trigger] self@.dom().contains(
                m,
            ) by {
                if models(r@).contains(m) {
                    let i = choose|i: int| 0 <= i < r@.len() && #[trigger] r@[i].model() == m;
                    assert(all[i].0.model() == m);
                }
                if self@.dom().contains(m) {
                    let i = place_of(all, m);
                    assert(r@[i].model() == m);
                }
            }
            assert(models(r@) =~= self@.dom());
        }
        r
    }
}

/// The texts of a list are the models of its items.
pub proof fn lemma_item_texts(items: Seq<String>)
    ensures
        text::texts(items).to_set() == models(items),
{
    assert forall|t: Seq<char>| #[trigger]
        text::texts(items).to_set().contains(t) <==> models(items).contains(t) by {
        let list = text::texts(items);
        if list.to_set().contains(t) {
            let i = choose|i: int| 0 <= i < list.len() && list[i] == t;
            assert(items[i].model() == t);
        }
        if models(items).contains(t) {
            let i = choose|i: int|
                0 <= i < items.len() && #[trigger] items[i].model() == t;
            assert(list[i] == t);
        }
    }
    assert(text::texts(items).to_set() =~= models(items));
}

/// Ascending strings are the ascending texts of their set.
pub proof fn lemma_item_order(items: Seq<String>)
    requires
        items_ascend(items),
    ensures
        text::ascending(models(items)) == text::texts(items),
{
    let list = text::texts(items);
    assert forall|i: int, j: int| 0 <= i < j < list.len() implies text::text_before(
        #[trigger] list[i],
        #[trigger] list[j],
    ) by {
        assert(String::before(items[i].model(), items[j].model()));
    }
    lemma_item_texts(items);
    text::lemma_ascending(list);
}

/// A key that can be copied.
pub trait CopiedKey: OrderedKey {
    /// A key with the same model.
    fn copied(&self) -> (r: Self)
        ensures
            r.model() == self.model(),
    ;
}

impl CopiedKey for String {
    fn copied(&self) -> (r: Self) {
        self.clone()
    }
}

/// A value that can be copied.
pub trait CopiedValue: Sized {
    /// The same value.
    fn copied(&self) -> (r: Self)
        ensures
            r == *self,
    ;
}

impl CopiedValue for String {
    fn copied(&self) -> (r: Self) {
        self.clone()
    }
}

impl CopiedValue for usize {
    fn copied(&self) -> (r: Self) {
        *self
    }
}

impl CopiedValue for () {
    fn copied(&self) -> (r: Self) {
        ()
    }
}

impl OrderedSet<String> {
    /// The items that are in another set too.
    pub fn common(&self, other: &OrderedSet<String>) -> (r: OrderedSet<String>)
        ensures
            r@ == self@.intersect(other@),
    {
        let list = self.map.entries();
        let ghost all = list@;
        let mut r: OrderedSet<String> = OrderedSet::new();
        let mut i: usize = 0;
        while i < list.len()
            invariant
                list@ == all,
                i <= all.len(),
                forall|t: Seq<char>| #[trigger]
                    r@.contains(t) <==> other@.contains(t) && (exists|k: int|
                        0 <= k < i && (#[trigger] all[k]).0@ == t),
            decreases all.len() - i,
        {
            let item = &list[i].0;
            if other.has(item) {
                r.insert(item.clone());
            }
            i += 1;
        }
        proof {
            assert forall|t: Seq<char>| #[trigger] r@.contains(t) <==> self@.intersect(
                other@,
            ).contains(t) by {
                if self@.contains(t) {
                    assert(has_key(all, t));
                    assert(all[place_of(all, t)].0@ == t);
                }
                if exists|k: int| 0 <= k < i && (#[trigger] all[k]).0@ == t {
                    let k = choose|k: int| 0 <= k < i && (#[trigger] all[k]).0@ == t;
                    lemma_entry(all, k);
                }
            }
            assert(r@ =~= self@.intersect(other@));
        }
        r
    }
}

/// Two lists with the same keys and values make up the same map.
proof fn lemma_same_map<K: OrderedKey, V>(s: Seq<(K, V)>, t: Seq<(K, V)>)
    requires
        keys_ascend(s),
        s.len() == t.len(),
        forall|i: int|
            0 <= i < s.len() ==> (#[trigger] t[i]).0.model() == s[i].0.model() && t[i].1 == s[i].1,
    ensures
        keys_ascend(t),
        as_map(t) == as_map(s),
{
    assert forall|i: int, j: int| 0 <= i < j < t.len() implies K::before(
        #[trigger] t[i].0.model(),
        #[trigger] t[j].0.model(),
    ) by {
        assert(K::before(s[i].0.model(), s[j].0.model()));
    }
    assert forall|k: K::Model| #[trigger] has_key(t, k) <==> has_key(s, k) by {
        if has_key(t, k) {
            let i = place_of(t, k);
            assert(s[i].0.model() == k);
        }
        if has_key(s, k) {
            let i = place_of(s, k);
            assert(t[i].0.model() == k);
        }
    }
    assert forall|k: K::Model| has_key(t, k) implies #[trigger] as_map(t)[k] == as_map(s)[k] by {
        let i = place_of(t, k);
        lemma_entry(t, i);
        assert(s[i].0.model() == k);
        lemma_entry(s, i);
    }
    assert(as_map(t) =~= as_map(s));
}

impl<K: CopiedKey, V: CopiedValue> Clone for OrderedMap<K, V> {
    fn clone(&self) -> (r: Self)
        ensures
            r@ == self@,
    {
        proof {
            use_type_invariant(self);
        }
        let mut items: Vec<(K, V)> = Vec::new();
        let mut i: usize = 0;
        while i < self.items.len()
            invariant
                i <= self.items@.len(),
                items@.len() == i,
                forall|k: int|
                    0 <= k < i ==> (#[trigger] items@[k]).0.model() == self.items@[k].0.model()
                        && items@[k].1 == self.items@[k].1,
            decreases self.items@.len() - i,
        {
            items.push((self.items[i].0.copied(), self.items[i].1.copied()));
            i += 1;
        }
        proof {
            lemma_same_map(self.items@, items@);
        }
        OrderedMap { items }
    }
}

impl<K: CopiedKey> Clone for OrderedSet<K> {
    fn clone(&self) -> (r: Self)
        ensures
            r@ == self@,
    {
        OrderedSet { map: self.map.clone() }
    }
}

/// The items of `s` do not descend: none comes before an earlier one.
pub open spec fn items_in_order<K: OrderedKey>(s: Seq<K>) -> bool {
    forall|i: int, j: int|
        0 <= i < j < s.len() ==> !K::before(#[trigger] s[j].model(), #[trigger] s[i].model())
}

/// The items of `s` whose model is `m`, in their order.
pub open spec fn of_model<K: OrderedKey>(s: Seq<K>, m: K::Model) -> Seq<K> {
    s.filter(|x: K| x.model() == m)
}

/// `x` put into `s` before the items that it does not come after.
proof fn lemma_place_item<K: OrderedKey>(s: Seq<K>, at: int, x: K)
    requires
        items_in_order(s),
        0 <= at <= s.len(),
        forall|i: int| 0 <= i < at ==> K::before(#[trigger] s[i].model(), x.model()),
        forall|i: int| at <= i < s.len() ==> !K::before(#[trigger] s[i].model(), x.model()),
    ensures
        items_in_order(s.insert(at, x)),
        s.insert(at, x).to_multiset() == s.to_multiset().insert(x),
        forall|m: K::Model| #[trigger]
            of_model(s.insert(at, x), m) == of_model(seq![x] + s, m),
{
    let t = s.insert(at, x);
    assert forall|i: int, j: int| 0 <= i < j < t.len() implies !K::before(
        #[trigger] t[j].model(),
        #[trigger] t[i].model(),
    ) by {
        let i0 = if i < at { i } else { i - 1 };
        let j0 = if j < at { j } else { j - 1 };
        if i != at && j != at {
            assert(!K::before(s[j0].model(), s[i0].model()));
        } else if i == at {
            assert(!K::before(s[j0].model(), x.model()));
        } else {
            assert(K::before(s[i0].model(), x.model()));
            if K::before(x.model(), s[i0].model()) {
                K::transitive(x.model(), s[i0].model(), x.model());
                K::irreflexive(x.model());
            }
        }
    }
    lemma_insert_multiset(s, at, x);
    let a = s.take(at);
    let b = s.skip(at);
    assert(t =~= a + seq![x] + b);
    assert(s =~= a + b);
    assert forall|m: K::Model| #[trigger] of_model(t, m) == of_model(seq![x] + s, m) by {
        let p = |y: K| y.model() == m;
        Seq::filter_distributes_over_add(a + seq![x], b, p);
        Seq::filter_distributes_over_add(a, seq![x], p);
        Seq::filter_distributes_over_add(seq![x], s, p);
        Seq::filter_distributes_over_add(a, b, p);
        if x.model() == m {
            assert forall|i: int| 0 <= i < a.len() implies !p(#[trigger] a[i]) by {
                assert(K::before(s[i].model(), x.model()));
                K::irreflexive(m);
            }
            a.lemma_all_neg_filter_empty(p);
            assert(a.filter(p) =~= Seq::<K>::empty());
        } else {
            assert(seq![x].filter(p) =~= Seq::<K>::empty()) by {
                seq![x].lemma_all_neg_filter_empty(p);
            }
        }
        assert(t.filter(p) =~= (seq![x] + s).filter(p));
    }
}

/// `sorted` holds the items of `list` in ascending order. Items with equal
/// models keep their order.
pub open spec fn is_sorted<K: OrderedKey>(list: Seq<K>, sorted: Seq<K>) -> bool {
    &&& items_in_order(sorted)
    &&& sorted.to_multiset() == list.to_multiset()
    &&& forall|m: K::Model| #[trigger] of_model(sorted, m) == of_model(list, m)
}

/// The items of `list` in ascending order. Items with equal models keep their
/// order.
pub fn sort_items<K: OrderedKey>(list: Vec<K>) -> (r: Vec<K>)
    ensures
        is_sorted(list@, r@),
{
    let ghost all = list@;
    let mut list = list;
    let mut r: Vec<K> = Vec::new();
    proof {
        assert(all.take(all.len() as int) =~= all);
        assert(all.skip(all.len() as int) =~= r@);
    }
    while list.len() > 0
        invariant
            list@.len() <= all.len(),
            list@ == all.take(list@.len() as int),
            items_in_order(r@),
            r@.to_multiset() == all.skip(list@.len() as int).to_multiset(),
            forall|m: K::Model| #[trigger]
                of_model(r@, m) == of_model(all.skip(list@.len() as int), m),
        decreases list@.len(),
    {
        let ghost n = list@.len() as int;
        match list.pop() {
            Some(x) => {
                let mut at: usize = 0;
                while at < r.len() && r[at].is_before(&x)
                    invariant
                        at <= r@.len(),
                        forall|i: int|
                            0 <= i < at ==> K::before(#[trigger] r@[i].model(), x.model()),
                    decreases r@.len() - at,
                {
                    at += 1;
                }
                proof {
                    let rest = all.skip(n);
                    assert forall|i: int| at <= i < r@.len() implies !K::before(
                        #[trigger] r@[i].model(),
                        x.model(),
                    ) by {
                        if i > at && K::before(r@[i].model(), x.model()) {
                            K::total(r@[at as int].model(), r@[i].model());
                            assert(!K::before(r@[i].model(), r@[at as int].model()));
                            if K::before(r@[at as int].model(), r@[i].model()) {
                                K::transitive(r@[at as int].model(), r@[i].model(), x.model());
                            }
                        }
                    }
                    lemma_place_item(r@, at as int, x);
                    assert(x == all[n - 1]);
                    assert(list@ =~= all.take(n - 1));
                    assert(all.skip(n - 1) =~= seq![x] + rest);
                    (seq![x] + rest).to_multiset_ensures();
                    assert((seq![x] + rest).remove(0) =~= rest);
                    assert((seq![x] + rest)[0] == x);
                    assert((seq![x] + rest).contains(x));
                    assert((seq![x] + rest).to_multiset()
                        =~= (seq![x] + rest).to_multiset().remove(x).insert(x));
                    assert forall|m: K::Model| #[trigger]
                        of_model(r@.insert(at as int, x), m) == of_model(
                        all.skip(n - 1),
                        m,
                    ) by {
                        let p = |y: K| y.model() == m;
                        Seq::filter_distributes_over_add(seq![x], r@, p);
                        Seq::filter_distributes_over_add(seq![x], rest, p);
                        assert(of_model(r@, m) == of_model(rest, m));
                        assert(of_model(seq![x] + rest, m) == of_model(seq![x] + r@, m));
                    }
                }
                r.insert(at, x);
            },
            None => {},
        }
    }
    proof {
        assert(all.skip(0) =~= all);
    }
    r
}

} // verus!
