//! User keys: their order, and sorted maps and sets of them.
use crate::blob::contents;
use bytes::Bytes;
use vstd::prelude::*;

verus! {

// ---------------------------------------------------------------------------
// Order of keys.

/// Whether `a` comes before `b` in the order of keys: byte by byte, a proper
/// prefix first.
pub open spec fn key_before(a: Seq<u8>, b: Seq<u8>) -> bool
    decreases a.len(),
{
    if b.len() == 0 {
        false
    } else if a.len() == 0 {
        true
    } else if a[0] != b[0] {
        a[0] < b[0]
    } else {
        key_before(a.skip(1), b.skip(1))
    }
}

/// Whether `key` starts with `prefix`.
pub open spec fn has_prefix(key: Seq<u8>, prefix: Seq<u8>) -> bool {
    prefix.len() <= key.len() && key.take(prefix.len() as int) == prefix
}

/// How two keys stand to each other.
#[derive(Debug, Clone, Copy, PartialEq, Eq, Structural)]
pub enum KeyOrder {
    /// The first comes before the second.
    Before,
    /// They are equal.
    Same,
    /// The first comes after the second.
    After,
}

/// No key comes before itself.
pub proof fn key_order_irreflexive(a: Seq<u8>)
    ensures
        !key_before(a, a),
    decreases a.len(),
{
    if a.len() > 0 {
        key_order_irreflexive(a.skip(1));
    }
}

/// Of two different keys one comes before the other.
pub proof fn key_order_total(a: Seq<u8>, b: Seq<u8>)
    ensures
        a == b || key_before(a, b) || key_before(b, a),
    decreases a.len(),
{
    if a.len() > 0 && b.len() > 0 {
        key_order_total(a.skip(1), b.skip(1));
        if a[0] == b[0] && a.skip(1) == b.skip(1) {
            assert(a =~= seq![a[0]] + a.skip(1));
            assert(b =~= seq![b[0]] + b.skip(1));
        }
    } else if a.len() == 0 && b.len() == 0 {
        assert(a =~= b);
    }
}

/// The order of keys is transitive.
pub proof fn key_order_transitive(a: Seq<u8>, b: Seq<u8>, c: Seq<u8>)
    requires
        key_before(a, b),
        key_before(b, c),
    ensures
        key_before(a, c),
    decreases a.len(),
{
    if a.len() > 0 && a[0] == b[0] && b[0] == c[0] {
        key_order_transitive(a.skip(1), b.skip(1), c.skip(1));
    }
}

/// Of two keys at most one comes before the other.
pub proof fn key_order_asymmetric(a: Seq<u8>, b: Seq<u8>)
    requires
        key_before(a, b),
    ensures
        !key_before(b, a),
        a != b,
{
    if key_before(b, a) {
        key_order_transitive(a, b, a);
    }
    key_order_irreflexive(a);
}

/// Finds how two keys stand to each other.
pub fn key_order(a: &[u8], b: &[u8]) -> (r: KeyOrder)
    ensures
        r is Before <==> key_before(a@, b@),
        r is Same <==> a@ == b@,
        r is After <==> key_before(b@, a@),
{
    proof {
        key_order_irreflexive(a@);
        key_order_irreflexive(b@);
        if key_before(a@, b@) {
            key_order_asymmetric(a@, b@);
        }
        if key_before(b@, a@) {
            key_order_asymmetric(b@, a@);
        }
        assert(a@.skip(0) =~= a@);
        assert(b@.skip(0) =~= b@);
    }
    let mut i: usize = 0;
    while i < a.len() && i < b.len()
        invariant
            i <= a@.len(),
            i <= b@.len(),
            a@.take(i as int) == b@.take(i as int),
            key_before(a@, b@) == key_before(a@.skip(i as int), b@.skip(i as int)),
            key_before(b@, a@) == key_before(b@.skip(i as int), a@.skip(i as int)),
            key_before(a@, b@) ==> !key_before(b@, a@) && a@ != b@,
            key_before(b@, a@) ==> !key_before(a@, b@) && a@ != b@,
        decreases a@.len() - i,
    {
        let x: u8 = a[i];
        let y: u8 = b[i];
        if x < y {
            return KeyOrder::Before;
        }
        if x > y {
            return KeyOrder::After;
        }
        proof {
            assert(a@.skip(i as int).skip(1) =~= a@.skip(i + 1));
            assert(b@.skip(i as int).skip(1) =~= b@.skip(i + 1));
            assert(a@.take(i + 1) =~= a@.take(i as int).push(x));
            assert(b@.take(i + 1) =~= b@.take(i as int).push(y));
        }
        i = i + 1;
    }
    if i < b.len() {
        KeyOrder::Before
    } else if i < a.len() {
        KeyOrder::After
    } else {
        proof {
            assert(a@ =~= a@.take(i as int));
            assert(b@ =~= b@.take(i as int));
        }
        KeyOrder::Same
    }
}

/// Finds whether `key` starts with `prefix`.
pub fn starts_with(key: &[u8], prefix: &[u8]) -> (r: bool)
    ensures
        r == has_prefix(key@, prefix@),
{
    if key.len() < prefix.len() {
        return false;
    }
    let mut i: usize = 0;
    while i < prefix.len()
        invariant
            i <= prefix@.len() <= key@.len(),
            key@.take(i as int) == prefix@.take(i as int),
        decreases prefix@.len() - i,
    {
        proof {
            assert(key@.take(i + 1) =~= key@.take(i as int).push(key@[i as int]));
            assert(prefix@.take(i + 1) =~= prefix@.take(i as int).push(prefix@[i as int]));
        }
        if key[i] != prefix[i] {
            proof {
                if has_prefix(key@, prefix@) {
                    assert(key@.take(prefix@.len() as int)[i as int] == key@[i as int]);
                }
            }
            return false;
        }
        i = i + 1;
    }
    proof {
        assert(prefix@.take(i as int) =~= prefix@);
    }
    true
}

// ---------------------------------------------------------------------------
// Sorted maps.

/// Whether the keys of `pairs` are in strictly ascending order.
pub open spec fn sorted<V>(pairs: Seq<(Seq<u8>, V)>) -> bool {
    forall|i: int, j: int|
        0 <= i < j < pairs.len() ==> key_before(#[trigger] pairs[i].0, #[trigger] pairs[j].0)
}

/// Whether some pair has the key `key`.
pub open spec fn has_key<V>(pairs: Seq<(Seq<u8>, V)>, key: Seq<u8>) -> bool {
    exists|i: int| 0 <= i < pairs.len() && #[trigger] pairs[i].0 == key
}

/// The place of a pair with the key `key`.
pub open spec fn place_of<V>(pairs: Seq<(Seq<u8>, V)>, key: Seq<u8>) -> int {
    choose|i: int| 0 <= i < pairs.len() && #[trigger] pairs[i].0 == key
}

/// The map that sorted pairs stand for.
pub open spec fn as_map<V>(pairs: Seq<(Seq<u8>, V)>) -> Map<Seq<u8>, V> {
    Map::new(|key: Seq<u8>| has_key(pairs, key), |key: Seq<u8>| pairs[place_of(pairs, key)].1)
}

/// A map from keys to values, kept in the order of its keys.
#[derive(Debug)]
pub struct KeyMap<V> {
    entries: Vec<(Vec<u8>, V)>,
}

impl<V> View for KeyMap<V> {
    type V = Seq<(Seq<u8>, V)>;

    closed spec fn view(&self) -> Seq<(Seq<u8>, V)> {
        Seq::new(self.entries@.len(), |i: int| (self.entries@[i].0@, self.entries@[i].1))
    }
}

/// In sorted pairs a key has one place.
pub proof fn lemma_sorted_places<V>(pairs: Seq<(Seq<u8>, V)>, i: int)
    requires
        sorted(pairs),
        0 <= i < pairs.len(),
    ensures
        place_of(pairs, pairs[i].0) == i,
        as_map(pairs).contains_key(pairs[i].0),
        as_map(pairs)[pairs[i].0] == pairs[i].1,
{
    let key = pairs[i].0;
    assert(has_key(pairs, key));
    let j = place_of(pairs, key);
    key_order_irreflexive(key);
    if i < j {
        assert(key_before(pairs[i].0, pairs[j].0));
    }
    if j < i {
        assert(key_before(pairs[j].0, pairs[i].0));
    }
}

/// Sorted pairs are determined by the map that they stand for.
pub proof fn sorted_pairs_determined_by_map<V>(a: Seq<(Seq<u8>, V)>, b: Seq<(Seq<u8>, V)>)
    requires
        sorted(a),
        sorted(b),
        as_map(a) == as_map(b),
    ensures
        a == b,
    decreases a.len(),
{
    if a.len() == 0 {
        if b.len() > 0 {
            lemma_sorted_places(b, 0);
            assert(has_key(a, b[0].0));
        }
        assert(a =~= b);
    } else {
        lemma_sorted_places(a, 0);
        let j = place_of(b, a[0].0);
        assert(has_key(b, a[0].0));
        lemma_sorted_places(b, 0);
        let i = place_of(a, b[0].0);
        assert(has_key(a, b[0].0));
        // The first keys agree: neither can come before the other.
        if j > 0 {
            assert(key_before(b[0].0, b[j].0));
            assert(i > 0) by {
                key_order_irreflexive(a[0].0);
            }
            assert(key_before(a[0].0, a[i].0));
            key_order_asymmetric(a[0].0, b[0].0);
        }
        let a1 = a.skip(1);
        let b1 = b.skip(1);
        assert forall|x: int, y: int| 0 <= x < y < a1.len() implies key_before(
            #[trigger] a1[x].0,
            #[trigger] a1[y].0,
        ) by {
            assert(a1[x] == a[x + 1] && a1[y] == a[y + 1]);
        }
        assert forall|x: int, y: int| 0 <= x < y < b1.len() implies key_before(
            #[trigger] b1[x].0,
            #[trigger] b1[y].0,
        ) by {
            assert(b1[x] == b[x + 1] && b1[y] == b[y + 1]);
        }
        lemma_map_of_rest(a);
        lemma_map_of_rest(b);
        sorted_pairs_determined_by_map(a1, b1);
        assert(a =~= seq![a[0]] + a1);
        assert(b =~= seq![b[0]] + b1);
    }
}

proof fn lemma_map_of_rest<V>(a: Seq<(Seq<u8>, V)>)
    requires
        sorted(a),
        sorted(a.skip(1)),
        a.len() > 0,
    ensures
        as_map(a.skip(1)) == as_map(a).remove(a[0].0),
{
    let rest = a.skip(1);
    let whole = as_map(a).remove(a[0].0);
    assert forall|key: Seq<u8>|
        #![trigger as_map(rest).dom().contains(key)]
        #![trigger whole.dom().contains(key)]
        as_map(rest).dom().contains(key) == whole.dom().contains(key) && (whole.dom().contains(key)
            ==> as_map(rest)[key] == whole[key]) by {
        if has_key(rest, key) {
            let i = place_of(rest, key);
            assert(a[i + 1].0 == key);
            lemma_sorted_places(a, i + 1);
            lemma_sorted_places(rest, i);
            assert(key_before(a[0].0, a[i + 1].0));
            key_order_asymmetric(a[0].0, key);
        }
        if has_key(a, key) && key != a[0].0 {
            let i = place_of(a, key);
            assert(rest[i - 1].0 == key);
        }
    }
    assert(as_map(rest) =~= whole);
}

impl<V> KeyMap<V> {
    /// The invariant: the keys are in strictly ascending order.
    pub open spec fn wf(&self) -> bool {
        sorted(self@)
    }

    /// An empty map.
    pub fn new() -> (r: KeyMap<V>)
        ensures
            r.wf(),
            r@ == Seq::<(Seq<u8>, V)>::empty(),
    {
        let r = KeyMap { entries: Vec::new() };
        assert(r@ =~= Seq::<(Seq<u8>, V)>::empty());
        r
    }

    /// How many keys the map has.
    pub fn len(&self) -> (r: usize)
        ensures
            r == self@.len(),
    {
        self.entries.len()
    }

    /// The key at place `i` in the order of keys.
    pub fn key_at(&self, i: usize) -> (r: &[u8])
        requires
            i < self@.len(),
        ensures
            r@ == self@[i as int].0,
    {
        self.entries[i].0.as_slice()
    }

    /// The value at place `i` in the order of keys.
    pub fn value_at(&self, i: usize) -> (r: &V)
        requires
            i < self@.len(),
        ensures
            *r == self@[i as int].1,
    {
        &self.entries[i].1
    }

    /// The first place whose key does not come before `key`.
    fn locate(&self, key: &[u8]) -> (r: usize)
        requires
            self.wf(),
        ensures
            r <= self@.len(),
            forall|i: int| 0 <= i < r ==> key_before(#[trigger] self@[i].0, key@),
            forall|i: int| r <= i < self@.len() ==> !key_before(#[trigger] self@[i].0, key@),
    {
        let mut low: usize = 0;
        let mut high: usize = self.entries.len();
        while low < high
            invariant
                self.wf(),
                low <= high <= self@.len(),
                forall|i: int| 0 <= i < low ==> key_before(#[trigger] self@[i].0, key@),
                forall|i: int| high <= i < self@.len() ==> !key_before(#[trigger] self@[i].0, key@),
            decreases high - low,
        {
            let mid: usize = low + (high - low) / 2;
            let order = key_order(self.entries[mid].0.as_slice(), key);
            assert(self@[mid as int].0 == self.entries@[mid as int].0@);
            if let KeyOrder::Before = order {
                proof {
                    assert forall|i: int| 0 <= i < mid + 1 implies key_before(
                        #[trigger] self@[i].0,
                        key@,
                    ) by {
                        if i < mid {
                            key_order_transitive(self@[i].0, self@[mid as int].0, key@);
                        }
                    }
                }
                low = mid + 1;
            } else {
                proof {
                    assert forall|i: int| mid <= i < self@.len() implies !key_before(
                        #[trigger] self@[i].0,
                        key@,
                    ) by {
                        if i > mid && key_before(self@[i].0, key@) {
                            key_order_transitive(self@[mid as int].0, self@[i].0, key@);
                        }
                    }
                }
                high = mid;
            }
        }
        low
    }

    /// Whether place `i`, found by `locate`, holds `key`.
    fn holds(&self, i: usize, key: &[u8]) -> (r: bool)
        requires
            self.wf(),
            i <= self@.len(),
            forall|k: int| 0 <= k < i ==> key_before(#[trigger] self@[k].0, key@),
            forall|k: int| i <= k < self@.len() ==> !key_before(#[trigger] self@[k].0, key@),
        ensures
            r ==> i < self@.len() && self@[i as int].0 == key@,
            r == as_map(self@).contains_key(key@),
    {
        if i == self.entries.len() {
            proof {
                key_order_irreflexive(key@);
            }
            return false;
        }
        let order = key_order(self.entries[i].0.as_slice(), key);
        proof {
            assert(self@[i as int].0 == self.entries@[i as int].0@);
            key_order_irreflexive(key@);
            if has_key(self@, key@) {
                let j = place_of(self@, key@);
                assert(j >= i) by {
                    if j < i {
                        assert(key_before(self@[j].0, key@));
                    }
                }
                if j > i {
                    assert(key_before(self@[i as int].0, self@[j].0));
                }
            }
        }
        if let KeyOrder::Same = order {
            true
        } else {
            false
        }
    }

    /// The value under `key`.
    pub fn get(&self, key: &[u8]) -> (r: Option<&V>)
        requires
            self.wf(),
        ensures
            match r {
                Some(value) => as_map(self@).contains_key(key@) && *value == as_map(self@)[key@],
                None => !as_map(self@).contains_key(key@),
            },
    {
        let i: usize = self.locate(key);
        if self.holds(i, key) {
            proof {
                lemma_sorted_places(self@, i as int);
            }
            Some(&self.entries[i].1)
        } else {
            None
        }
    }

    /// Puts `value` under `key` and gives back what was there.
    pub fn insert(&mut self, key: Vec<u8>, value: V) -> (r: Option<V>)
        requires
            old(self).wf(),
        ensures
            final(self).wf(),
            as_map(final(self)@) == as_map(old(self)@).insert(key@, value),
            match r {
                Some(before) => as_map(old(self)@).contains_key(key@) && before == as_map(
                    old(self)@,
                )[key@],
                None => !as_map(old(self)@).contains_key(key@),
            },
    {
        let ghost before = self@;
        let ghost key_bytes = key@;
        let i: usize = self.locate(key.as_slice());
        let found: bool = self.holds(i, key.as_slice());
        let displaced: Option<V> = if found {
            let (_, old_value) = self.entries.remove(i);
            Some(old_value)
        } else {
            None
        };
        self.entries.insert(i, (key, value));
        proof {
            if found {
                lemma_sorted_places(before, i as int);
                assert(self@ =~= before.update(i as int, (key_bytes, value)));
            } else {
                assert(self@ =~= before.insert(i as int, (key_bytes, value)));
            }
            lemma_put(before, i as int, key_bytes, value, found, self@);
        }
        displaced
    }

    /// Takes the value under `key` out.
    pub fn remove(&mut self, key: &[u8]) -> (r: Option<V>)
        requires
            old(self).wf(),
        ensures
            final(self).wf(),
            as_map(final(self)@) == as_map(old(self)@).remove(key@),
            match r {
                Some(before) => as_map(old(self)@).contains_key(key@) && before == as_map(
                    old(self)@,
                )[key@],
                None => !as_map(old(self)@).contains_key(key@) && final(self)@ == old(self)@,
            },
    {
        let i: usize = self.locate(key);
        if !self.holds(i, key) {
            proof {
                assert(as_map(self@).remove(key@) =~= as_map(self@));
            }
            return None;
        }
        let ghost before = self@;
        let (_, value) = self.entries.remove(i);
        proof {
            lemma_sorted_places(before, i as int);
            assert(self@ =~= before.remove(i as int));
            lemma_take_out(before, i as int);
        }
        Some(value)
    }
}

proof fn lemma_put<V>(
    before: Seq<(Seq<u8>, V)>,
    i: int,
    key: Seq<u8>,
    value: V,
    found: bool,
    after: Seq<(Seq<u8>, V)>,
)
    requires
        sorted(before),
        0 <= i <= before.len(),
        forall|k: int| 0 <= k < i ==> key_before(#[trigger] before[k].0, key),
        forall|k: int| i <= k < before.len() ==> !key_before(#[trigger] before[k].0, key),
        found == as_map(before).contains_key(key),
        found ==> i < before.len() && before[i].0 == key,
        after == if found {
            before.update(i, (key, value))
        } else {
            before.insert(i, (key, value))
        },
    ensures
        sorted(after),
        as_map(after) == as_map(before).insert(key, value),
{
    let shift: int = if found {
        0
    } else {
        1
    };
    assert forall|k: int| i <= k < before.len() && !found implies key_before(
        key,
        #[trigger] before[k].0,
    ) by {
        key_order_total(key, before[k].0);
        if before[k].0 == key {
            assert(has_key(before, key));
        }
    }
    assert forall|x: int, y: int| 0 <= x < y < after.len() implies key_before(
        #[trigger] after[x].0,
        #[trigger] after[y].0,
    ) by {
        if found {
            assert(after[x].0 == before[x].0 && after[y].0 == before[y].0);
        } else if y < i {
            assert(after[x] == before[x] && after[y] == before[y]);
        } else if x > i {
            assert(after[x] == before[x - 1] && after[y] == before[y - 1]);
        } else if x < i && y > i {
            assert(after[x] == before[x] && after[y] == before[y - 1]);
        } else if y == i {
            assert(after[x] == before[x]);
        } else {
            assert(after[y] == before[y - 1]);
        }
    }
    let whole = as_map(before).insert(key, value);
    assert(after[i] == (key, value));
    lemma_sorted_places(after, i);
    assert forall|k: Seq<u8>|
        #![trigger as_map(after).dom().contains(k)]
        #![trigger whole.dom().contains(k)]
        as_map(after).dom().contains(k) == whole.dom().contains(k) && (whole.dom().contains(k)
            ==> as_map(after)[k] == whole[k]) by {
        if k != key {
            if has_key(after, k) {
                let p = place_of(after, k);
                let q = if p < i {
                    p
                } else {
                    p - shift
                };
                assert(before[q] == after[p]);
                lemma_sorted_places(before, q);
                lemma_sorted_places(after, p);
            }
            if has_key(before, k) {
                let q = place_of(before, k);
                let p = if q < i {
                    q
                } else {
                    q + shift
                };
                assert(after[p] == before[q]);
                lemma_sorted_places(before, q);
                lemma_sorted_places(after, p);
            }
        }
    }
    assert(as_map(after) =~= whole);
}

proof fn lemma_take_out<V>(before: Seq<(Seq<u8>, V)>, i: int)
    requires
        sorted(before),
        0 <= i < before.len(),
    ensures
        sorted(before.remove(i)),
        as_map(before.remove(i)) == as_map(before).remove(before[i].0),
{
    let after = before.remove(i);
    let key = before[i].0;
    assert forall|x: int, y: int| 0 <= x < y < after.len() implies key_before(
        #[trigger] after[x].0,
        #[trigger] after[y].0,
    ) by {
        let p = if x < i {
            x
        } else {
            x + 1
        };
        let q = if y < i {
            y
        } else {
            y + 1
        };
        assert(after[x] == before[p] && after[y] == before[q]);
    }
    let whole = as_map(before).remove(key);
    assert forall|k: Seq<u8>|
        #![trigger as_map(after).dom().contains(k)]
        #![trigger whole.dom().contains(k)]
        as_map(after).dom().contains(k) == whole.dom().contains(k) && (whole.dom().contains(k)
            ==> as_map(after)[k] == whole[k]) by {
        if has_key(after, k) {
            let p = place_of(after, k);
            let q = if p < i {
                p
            } else {
                p + 1
            };
            assert(before[q] == after[p]);
            lemma_sorted_places(before, q);
            lemma_sorted_places(before, i);
            lemma_sorted_places(after, p);
        }
        if has_key(before, k) && k != key {
            let q = place_of(before, k);
            let p = if q < i {
                q
            } else {
                q - 1
            };
            assert(after[p] == before[q]);
        }
    }
    assert(as_map(after) =~= whole);
}

// ---------------------------------------------------------------------------
// Sets.

/// A set of keys.
#[derive(Debug)]
pub struct KeySet {
    map: KeyMap<()>,
}

impl View for KeySet {
    type V = Set<Seq<u8>>;

    closed spec fn view(&self) -> Set<Seq<u8>> {
        as_map(self.map@).dom()
    }
}

impl KeySet {
    /// The invariant of the map that holds the keys.
    pub closed spec fn wf(&self) -> bool {
        self.map.wf()
    }

    /// An empty set.
    pub fn new() -> (r: KeySet)
        ensures
            r.wf(),
            r@ == Set::<Seq<u8>>::empty(),
    {
        let r = KeySet { map: KeyMap::new() };
        assert(r@ =~= Set::<Seq<u8>>::empty());
        r
    }

    /// Puts `key` in, and tells whether it was not there before.
    pub fn insert(&mut self, key: Vec<u8>) -> (r: bool)
        requires
            old(self).wf(),
        ensures
            final(self).wf(),
            final(self)@ == old(self)@.insert(key@),
            r == !old(self)@.contains(key@),
    {
        let ghost key_bytes = key@;
        let before: Option<()> = self.map.insert(key, ());
        assert(self@ =~= old(self)@.insert(key_bytes));
        before.is_none()
    }
}

// ---------------------------------------------------------------------------
// Entries: keys and the bytes of their values.

/// A key and the bytes of its value.
pub type Entry = (Seq<u8>, Seq<u8>);

/// Pairs with each value as the bytes that it holds.
pub open spec fn entry_pairs(pairs: Seq<(Seq<u8>, Bytes)>) -> Seq<Entry> {
    Seq::new(pairs.len(), |i: int| (pairs[i].0, contents(pairs[i].1)))
}

/// The map that is left after the entries are put into an empty map in turn:
/// of entries with one key the last one stays.
pub open spec fn inserted(entries: Seq<Entry>) -> Map<Seq<u8>, Seq<u8>>
    decreases entries.len(),
{
    if entries.len() == 0 {
        Map::empty()
    } else {
        inserted(entries.drop_last()).insert(entries.last().0, entries.last().1)
    }
}

/// Keys and values of a map of byte strings.
pub proof fn lemma_entry_map(pairs: Seq<(Seq<u8>, Bytes)>)
    requires
        sorted(pairs),
    ensures
        sorted(entry_pairs(pairs)),
        as_map(entry_pairs(pairs)).dom() == as_map(pairs).dom(),
        forall|key: Seq<u8>| #[trigger]
            as_map(pairs).contains_key(key) ==> as_map(entry_pairs(pairs))[key] == contents(
                as_map(pairs)[key],
            ),
{
    let entries = entry_pairs(pairs);
    assert forall|i: int, j: int| 0 <= i < j < entries.len() implies key_before(
        #[trigger] entries[i].0,
        #[trigger] entries[j].0,
    ) by {
        assert(entries[i].0 == pairs[i].0 && entries[j].0 == pairs[j].0);
    }
    assert forall|key: Seq<u8>|
        #![trigger as_map(entries).dom().contains(key)]
        #![trigger as_map(pairs).dom().contains(key)]
        as_map(entries).dom().contains(key) == as_map(pairs).dom().contains(key) && (as_map(
            pairs,
        ).dom().contains(key) ==> as_map(entries)[key] == contents(as_map(pairs)[key])) by {
        if has_key(pairs, key) {
            let i = place_of(pairs, key);
            assert(entries[i].0 == key);
            lemma_sorted_places(pairs, i);
            lemma_sorted_places(entries, i);
        }
        if has_key(entries, key) {
            let i = place_of(entries, key);
            assert(pairs[i].0 == key);
        }
    }
    assert(as_map(entries).dom() =~= as_map(pairs).dom());
}

/// Putting a byte string into a map puts its bytes into the map of bytes.
pub proof fn lemma_entry_insert(
    before: Seq<(Seq<u8>, Bytes)>,
    after: Seq<(Seq<u8>, Bytes)>,
    key: Seq<u8>,
    value: Bytes,
)
    requires
        sorted(before),
        sorted(after),
        as_map(after) == as_map(before).insert(key, value),
    ensures
        as_map(entry_pairs(after)) == as_map(entry_pairs(before)).insert(key, contents(value)),
{
    lemma_entry_map(before);
    lemma_entry_map(after);
    let whole = as_map(entry_pairs(before)).insert(key, contents(value));
    assert forall|k: Seq<u8>|
        #![trigger as_map(entry_pairs(after)).dom().contains(k)]
        #![trigger whole.dom().contains(k)]
        as_map(entry_pairs(after)).dom().contains(k) == whole.dom().contains(k) && (
        whole.dom().contains(k) ==> as_map(entry_pairs(after))[k] == whole[k]) by {
        if whole.dom().contains(k) {
            assert(as_map(after).contains_key(k));
            if k != key {
                assert(as_map(before).contains_key(k));
            }
        }
    }
    assert(as_map(entry_pairs(after)) =~= whole);
}

/// Sorted entries, put into an empty map in turn, make the map that they stand
/// for.
pub proof fn lemma_inserted_sorted(entries: Seq<Entry>)
    requires
        sorted(entries),
    ensures
        inserted(entries) == as_map(entries),
    decreases entries.len(),
{
    if entries.len() == 0 {
        assert(inserted(entries) =~= as_map(entries));
    } else {
        let front = entries.drop_last();
        let last = entries.last();
        assert forall|i: int, j: int| 0 <= i < j < front.len() implies key_before(
            #[trigger] front[i].0,
            #[trigger] front[j].0,
        ) by {
            assert(front[i] == entries[i] && front[j] == entries[j]);
        }
        lemma_inserted_sorted(front);
        let whole = as_map(front).insert(last.0, last.1);
        lemma_sorted_places(entries, entries.len() - 1);
        assert forall|k: Seq<u8>|
            #![trigger as_map(entries).dom().contains(k)]
            #![trigger whole.dom().contains(k)]
            as_map(entries).dom().contains(k) == whole.dom().contains(k) && (whole.dom().contains(k)
                ==> as_map(entries)[k] == whole[k]) by {
            if has_key(entries, k) && k != last.0 {
                let i = place_of(entries, k);
                assert(front[i].0 == k);
                lemma_sorted_places(entries, i);
                lemma_sorted_places(front, i);
            }
            if has_key(front, k) {
                let i = place_of(front, k);
                assert(entries[i].0 == k);
                assert(key_before(entries[i].0, entries[entries.len() - 1].0));
                key_order_asymmetric(k, last.0);
                lemma_sorted_places(entries, i);
                lemma_sorted_places(front, i);
            }
        }
        assert(as_map(entries) =~= whole);
    }
}

// ---------------------------------------------------------------------------
// What the order and the maps of keys mean.

/// Keys are ordered by the first byte in which they differ, as numbers from 0 to
/// 255; a key that ends there comes before one that goes on.
pub proof fn keys_are_ordered_by_their_first_difference(a: Seq<u8>, b: Seq<u8>, i: int)
    requires
        0 <= i <= a.len(),
        i <= b.len(),
        forall|k: int| 0 <= k < i ==> #[trigger] a[k] == b[k],
        i < a.len() && i < b.len() ==> a[i] != b[i],
    ensures
        i < a.len() && i < b.len() ==> (key_before(a, b) <==> (a[i] as int) < (b[i] as int)),
        i == a.len() && i < b.len() ==> key_before(a, b) && !key_before(b, a),
        i == b.len() ==> !key_before(a, b),
    decreases i,
{
    if i > 0 {
        let x = a.skip(1);
        let y = b.skip(1);
        assert(a[0] == b[0]);
        assert forall|k: int| 0 <= k < i - 1 implies #[trigger] x[k] == y[k] by {
            assert(a[k + 1] == b[k + 1]);
        }
        keys_are_ordered_by_their_first_difference(x, y, i - 1);
    }
}

/// A key starts with a prefix exactly where it has the bytes of the prefix at its
/// front.
pub proof fn prefixes_are_compared_byte_by_byte(key: Seq<u8>, prefix: Seq<u8>)
    ensures
        has_prefix(key, prefix) <==> prefix.len() <= key.len() && forall|i: int|
            0 <= i < prefix.len() ==> #[trigger] key[i] == prefix[i],
{
    if has_prefix(key, prefix) {
        assert forall|i: int| 0 <= i < prefix.len() implies #[trigger] key[i] == prefix[i] by {
            assert(key.take(prefix.len() as int)[i] == key[i]);
        }
    } else if prefix.len() <= key.len() && forall|i: int|
        0 <= i < prefix.len() ==> #[trigger] key[i] == prefix[i] {
        assert(key.take(prefix.len() as int) =~= prefix);
    }
}

/// The map of sorted pairs holds a value under a key exactly where the two are a
/// pair.
pub proof fn sorted_pairs_are_their_map<V>(pairs: Seq<(Seq<u8>, V)>, key: Seq<u8>, value: V)
    requires
        sorted(pairs),
    ensures
        as_map(pairs).contains_key(key) && as_map(pairs)[key] == value <==> exists|i: int|
            0 <= i < pairs.len() && #[trigger] pairs[i] == (key, value),
{
    if as_map(pairs).contains_key(key) && as_map(pairs)[key] == value {
        let i = place_of(pairs, key);
        assert(pairs[i] == (key, value));
    }
    if exists|i: int| 0 <= i < pairs.len() && #[trigger] pairs[i] == (key, value) {
        let i = choose|i: int| 0 <= i < pairs.len() && #[trigger] pairs[i] == (key, value);
        lemma_sorted_places(pairs, i);
    }
}

/// Of entries that are put into a map in turn, the last one with a key stays.
pub proof fn last_entry_with_a_key_stays(entries: Seq<Entry>, key: Seq<u8>, value: Seq<u8>)
    ensures
        inserted(entries).contains_key(key) && inserted(entries)[key] == value <==> exists|i: int|
            #![trigger entries[i]]
            0 <= i < entries.len() && entries[i] == (key, value) && forall|j: int|
                i < j < entries.len() ==> (#[trigger] entries[j]).0 != key,
    decreases entries.len(),
{
    if entries.len() > 0 {
        let front = entries.drop_last();
        let last = entries.len() - 1;
        last_entry_with_a_key_stays(front, key, value);
        if exists|i: int|
            #![trigger front[i]]
            0 <= i < front.len() && front[i] == (key, value) && forall|j: int|
                i < j < front.len() ==> (#[trigger] front[j]).0 != key {
            let i = choose|i: int|
                #![trigger front[i]]
                0 <= i < front.len() && front[i] == (key, value) && forall|j: int|
                    i < j < front.len() ==> (#[trigger] front[j]).0 != key;
            if entries[last].0 != key {
                assert(entries[i] == front[i]);
                assert forall|j: int| i < j < entries.len() implies (#[trigger] entries[j]).0
                    != key by {
                    if j < last {
                        assert(entries[j] == front[j]);
                    }
                }
            }
        }
        if exists|i: int|
            #![trigger entries[i]]
            0 <= i < entries.len() && entries[i] == (key, value) && forall|j: int|
                i < j < entries.len() ==> (#[trigger] entries[j]).0 != key {
            let i = choose|i: int|
                #![trigger entries[i]]
                0 <= i < entries.len() && entries[i] == (key, value) && forall|j: int|
                    i < j < entries.len() ==> (#[trigger] entries[j]).0 != key;
            if i < last {
                assert(front[i] == entries[i]);
                assert(entries[last].0 != key);
                assert forall|j: int| i < j < front.len() implies (#[trigger] front[j]).0
                    != key by {
                    assert(front[j] == entries[j]);
                }
            }
        }
        assert(entries[last] == entries.last());
    }
}

} // verus!
