//! Looking up several keys in one pass.
use crate::blob::{as_slice, contents, optional_contents, share};
use crate::keys::{as_map, has_key, key_before, lemma_sorted_places, place_of, KeyMap};
use bytes::Bytes;
use vstd::prelude::*;
use vstd::slice::slice_to_vec;

verus! {

/// The bytes of each byte string of a sequence.
pub open spec fn all_contents(keys: Seq<Bytes>) -> Seq<Seq<u8>> {
    Seq::new(keys.len(), |i: int| contents(keys[i]))
}

/// The bytes of each optional byte string of a sequence.
pub open spec fn all_optional_contents(values: Seq<Option<Bytes>>) -> Seq<Option<Seq<u8>>> {
    Seq::new(values.len(), |i: int| optional_contents(values[i]))
}

/// What was found of some keys, for each place in the order in which they were
/// asked for.
pub open spec fn answers(keys: Seq<Seq<u8>>, found: Map<Seq<u8>, Seq<u8>>) -> Seq<
    Option<Seq<u8>>,
> {
    Seq::new(
        keys.len(),
        |i: int|
            if found.contains_key(keys[i]) {
                Some(found[keys[i]])
            } else {
                None
            },
    )
}

/// The keys that are asked for and not found yet.
pub open spec fn pending(keys: Seq<Seq<u8>>, found: Map<Seq<u8>, Seq<u8>>) -> Set<Seq<u8>> {
    Set::new(|key: Seq<u8>| keys.contains(key) && !found.contains_key(key))
}

/// `found` with `value` under `key`, where that key is still pending.
pub open spec fn offered(
    keys: Seq<Seq<u8>>,
    found: Map<Seq<u8>, Seq<u8>>,
    key: Seq<u8>,
    value: Seq<u8>,
) -> Map<Seq<u8>, Seq<u8>> {
    if pending(keys, found).contains(key) {
        found.insert(key, value)
    } else {
        found
    }
}

/// Keys that are looked up together, and what was found of them.
pub struct Gather {
    requested: KeyMap<Vec<usize>>,
    results: Vec<Option<Bytes>>,
    keys: Ghost<Seq<Seq<u8>>>,
    found: Ghost<Map<Seq<u8>, Seq<u8>>>,
}

impl Gather {
    /// The keys that are looked up, in the order in which they were asked for.
    pub closed spec fn keys(&self) -> Seq<Seq<u8>> {
        self.keys@
    }

    /// What was found so far.
    pub closed spec fn found(&self) -> Map<Seq<u8>, Seq<u8>> {
        self.found@
    }

    /// The invariant: each place holds what was found of its key, and each
    /// pending key knows its places.
    pub closed spec fn wf(&self) -> bool {
        &&& self.requested.wf()
        &&& all_optional_contents(self.results@) == answers(self.keys@, self.found@)
        &&& as_map(self.requested@).dom() == pending(self.keys@, self.found@)
        &&& forall|key: Seq<u8>| #[trigger]
            as_map(self.requested@).contains_key(key) ==> places_right(
                self.keys@,
                key,
                as_map(self.requested@)[key]@,
            )
    }

    /// Starts to look `keys` up.
    pub fn new(keys: &[Bytes]) -> (r: Gather)
        ensures
            r.wf(),
            r.keys() == all_contents(keys@),
            r.found() == Map::<Seq<u8>, Seq<u8>>::empty(),
    {
        let mut requested: KeyMap<Vec<usize>> = KeyMap::new();
        let mut results: Vec<Option<Bytes>> = Vec::new();
        let ghost all = all_contents(keys@);
        let mut i: usize = 0;
        proof {
            assert(as_map(requested@).dom() =~= pending(
                all.take(0),
                Map::<Seq<u8>, Seq<u8>>::empty(),
            ));
        }
        while i < keys.len()
            invariant
                all == all_contents(keys@),
                i <= keys@.len(),
                results@.len() == i,
                forall|k: int| 0 <= k < i ==> #[trigger] results@[k] is None,
                requested.wf(),
                as_map(requested@).dom() == pending(
                    all.take(i as int),
                    Map::<Seq<u8>, Seq<u8>>::empty(),
                ),
                forall|key: Seq<u8>| #[trigger]
                    as_map(requested@).contains_key(key) ==> places_right(
                        all.take(i as int),
                        key,
                        as_map(requested@)[key]@,
                    ),
            decreases keys@.len() - i,
        {
            let ghost before = as_map(requested@);
            let key = as_slice(&keys[i]);
            let mut places: Vec<usize> = match requested.remove(key) {
                Some(places) => places,
                None => Vec::new(),
            };
            let ghost places_before = places@;
            places.push(i);
            let ghost places_after = places@;
            requested.insert(slice_to_vec(key), places);
            results.push(None);
            proof {
                let now = as_map(requested@);
                let earlier = all.take(i as int);
                let later = all.take(i + 1);
                assert(later =~= earlier.push(key@));
                if !before.contains_key(key@) {
                    assert(!earlier.contains(key@));
                }
                assert forall|k: Seq<u8>| now.dom().contains(k) == pending(
                    later,
                    Map::<Seq<u8>, Seq<u8>>::empty(),
                ).contains(k) by {
                    if earlier.contains(k) {
                        let p = choose|p: int| 0 <= p < earlier.len() && earlier[p] == k;
                        assert(later[p] == k);
                    }
                    if k == key@ {
                        assert(later[i as int] == k);
                    }
                    if later.contains(k) && k != key@ {
                        let p = choose|p: int| 0 <= p < later.len() && later[p] == k;
                        assert(earlier[p] == k);
                    }
                }
                assert(now.dom() =~= pending(later, Map::<Seq<u8>, Seq<u8>>::empty()));
                assert forall|k: Seq<u8>| #[trigger] now.contains_key(k) implies places_right(
                    later,
                    k,
                    now[k]@,
                ) by {
                    if k == key@ {
                        assert forall|p: int|
                            #![trigger later[p]]
                            0 <= p < later.len() implies (later[p] == k
                            <==> places_after.contains(p as usize)) by {
                            if p < i {
                                assert(later[p] == earlier[p]);
                                if places_before.contains(p as usize) {
                                    let q = choose|q: int|
                                        0 <= q < places_before.len() && places_before[q] == p;
                                    assert(places_after[q] == p);
                                }
                                if places_after.contains(p as usize) {
                                    let q = choose|q: int|
                                        0 <= q < places_after.len() && places_after[q] == p;
                                    assert(places_before[q] == p);
                                }
                                if !before.contains_key(k) && earlier[p] == k {
                                    assert(earlier.contains(k));
                                }
                            } else {
                                assert(places_after[places_after.len() - 1] == p);
                            }
                        }
                    } else {
                        assert(before.contains_key(k));
                        assert(places_right(earlier, k, before[k]@));
                        assert forall|p: int|
                            #![trigger later[p]]
                            0 <= p < later.len() implies (later[p] == k <==> now[k]@.contains(
                            p as usize,
                        )) by {
                            if p < i {
                                assert(later[p] == earlier[p]);
                            }
                        }
                    }
                }
            }
            i = i + 1;
        }
        proof {
            assert(all.take(i as int) =~= all);
            assert(all_optional_contents(results@) =~= answers(
                all,
                Map::<Seq<u8>, Seq<u8>>::empty(),
            ));
        }
        Gather { requested, results, keys: Ghost(all), found: Ghost(Map::empty()) }
    }

    /// Whether no key is pending.
    pub fn is_complete(&self) -> (r: bool)
        requires
            self.wf(),
        ensures
            r == (pending(self.keys(), self.found()) == Set::<Seq<u8>>::empty()),
    {
        let r: bool = self.requested.len() == 0;
        proof {
            if r {
                assert(as_map(self.requested@).dom() =~= Set::<Seq<u8>>::empty());
            } else {
                lemma_sorted_places(self.requested@, 0);
                assert(as_map(self.requested@).dom().contains(self.requested@[0].0));
            }
        }
        r
    }

    /// The first pending key in the order of keys.
    pub fn first_pending(&self) -> (r: Option<&[u8]>)
        requires
            self.wf(),
        ensures
            match r {
                Some(key) => is_first(pending(self.keys(), self.found()), key@),
                None => pending(self.keys(), self.found()) == Set::<Seq<u8>>::empty(),
            },
    {
        if self.requested.len() == 0 {
            proof {
                assert(as_map(self.requested@).dom() =~= Set::<Seq<u8>>::empty());
            }
            return None;
        }
        let key = self.requested.key_at(0);
        proof {
            let pairs = self.requested@;
            lemma_sorted_places(pairs, 0);
            assert forall|other: Seq<u8>| #[trigger]
                pending(self.keys(), self.found()).contains(other) && other
                    != key@ implies key_before(key@, other) by {
                assert(as_map(pairs).dom().contains(other));
                assert(has_key(pairs, other));
                let p = place_of(pairs, other);
                assert(key_before(pairs[0].0, pairs[p].0));
            }
        }
        Some(key)
    }

    /// Whether `key` is pending.
    pub fn wants(&self, key: &[u8]) -> (r: bool)
        requires
            self.wf(),
        ensures
            r == pending(self.keys(), self.found()).contains(key@),
    {
        let r: bool = self.requested.get(key).is_some();
        assert(r == as_map(self.requested@).dom().contains(key@));
        r
    }

    /// Takes `value` as what is found of `key`, where that key is pending.
    pub fn offer(&mut self, key: &[u8], value: &Bytes) -> (r: bool)
        requires
            old(self).wf(),
        ensures
            final(self).wf(),
            final(self).keys() == old(self).keys(),
            final(self).found() == offered(
                old(self).keys(),
                old(self).found(),
                key@,
                contents(*value),
            ),
            r == pending(old(self).keys(), old(self).found()).contains(key@),
    {
        let ghost keys = self.keys@;
        let ghost found = self.found@;
        let ghost before = as_map(self.requested@);
        let ghost results_before = self.results@;
        proof {
            assert(all_optional_contents(results_before).len() == keys.len());
        }
        match self.requested.remove(key) {
            None => false,
            Some(places) => {
                proof {
                    assert(before.dom().contains(key@));
                    assert(places_right(keys, key@, places@));
                }
                fill(&mut self.results, &places, value);
                let ghost found_now = found.insert(key@, contents(*value));
                self.found = Ghost(found_now);
                proof {
                    let now = as_map(self.requested@);
                    assert forall|p: int| 0 <= p < keys.len() implies #[trigger] all_optional_contents(
                        self.results@,
                    )[p] == answers(keys, found_now)[p] by {
                        assert(all_optional_contents(results_before)[p] == answers(keys, found)[p]);
                        assert(keys[p] == key@ <==> places@.contains(p as usize));
                    }
                    assert(all_optional_contents(self.results@) =~= answers(keys, found_now));
                    assert(now.dom() =~= pending(keys, found_now));
                    assert forall|k: Seq<u8>| #[trigger] now.contains_key(k) implies places_right(
                        keys,
                        k,
                        now[k]@,
                    ) by {
                        assert(before.contains_key(k));
                    }
                }
                true
            },
        }
    }

    /// What was found, for each place in the order in which the keys were asked
    /// for.
    pub fn into_results(self) -> (r: Vec<Option<Bytes>>)
        requires
            self.wf(),
        ensures
            all_optional_contents(r@) == answers(self.keys(), self.found()),
    {
        self.results
    }
}

/// Puts `value` at each of `places`.
fn fill(results: &mut Vec<Option<Bytes>>, places: &Vec<usize>, value: &Bytes)
    requires
        forall|i: int| 0 <= i < places@.len() ==> #[trigger] places@[i] < old(results)@.len(),
    ensures
        final(results)@.len() == old(results)@.len(),
        forall|p: int|
            0 <= p < old(results)@.len() ==> #[trigger] optional_contents(final(results)@[p])
                == if places@.contains(p as usize) {
                Some(contents(*value))
            } else {
                optional_contents(old(results)@[p])
            },
{
    let total: usize = results.len();
    let mut i: usize = 0;
    while i < places.len()
        invariant
            i <= places@.len(),
            results@.len() == old(results)@.len(),
            results@.len() == total,
            forall|k: int| 0 <= k < places@.len() ==> #[trigger] places@[k] < results@.len(),
            forall|p: int|
                0 <= p < results@.len() ==> #[trigger] optional_contents(results@[p])
                    == if places@.take(i as int).contains(p as usize) {
                    Some(contents(*value))
                } else {
                    optional_contents(old(results)@[p])
                },
        decreases places@.len() - i,
    {
        let place: usize = places[i];
        let ghost now = places@.take(i as int);
        let ghost next = places@.take(i + 1);
        let ghost results_now = results@;
        results[place] = Some(share(value));
        proof {
            assert(next =~= now.push(place));
            assert forall|p: int| 0 <= p < results@.len() implies #[trigger] optional_contents(
                results@[p],
            ) == if next.contains(p as usize) {
                Some(contents(*value))
            } else {
                optional_contents(old(results)@[p])
            } by {
                if p == place {
                    assert(next[i as int] == place);
                } else {
                    assert(optional_contents(results_now[p]) == optional_contents(results@[p]));
                    if now.contains(p as usize) {
                        let q = choose|q: int| 0 <= q < now.len() && now[q] == p as usize;
                        assert(next[q] == p as usize);
                    }
                    if next.contains(p as usize) {
                        let q = choose|q: int| 0 <= q < next.len() && next[q] == p as usize;
                        assert(now[q] == p as usize);
                    }
                }
            }
        }
        i = i + 1;
    }
    proof {
        assert(places@.take(i as int) =~= places@);
    }
}

/// Whether `places` are those at which `key` stands in `keys`.
pub closed spec fn places_right(keys: Seq<Seq<u8>>, key: Seq<u8>, places: Seq<usize>) -> bool {
    &&& forall|i: int| 0 <= i < places.len() ==> #[trigger] places[i] < keys.len()
    &&& forall|p: int|
        #![trigger keys[p]]
        0 <= p < keys.len() ==> (keys[p] == key <==> places.contains(p as usize))
    &&& keys.len() <= usize::MAX
}

/// Whether `key` is in `keys` and comes before all the others.
pub open spec fn is_first(keys: Set<Seq<u8>>, key: Seq<u8>) -> bool {
    &&& keys.contains(key)
    &&& forall|other: Seq<u8>| #[trigger]
        keys.contains(other) && other != key ==> key_before(key, other)
}

/// A key is pending exactly where it is asked for and not found. A value is taken
/// in only for a pending key, and changes nothing else. Every place is answered
/// with what was found of its key.
pub proof fn pending_keys_take_values(
    keys: Seq<Seq<u8>>,
    found: Map<Seq<u8>, Seq<u8>>,
    key: Seq<u8>,
    value: Seq<u8>,
    other: Seq<u8>,
    i: int,
)
    ensures
        pending(keys, found).contains(key) <==> !found.contains_key(key) && exists|k: int|
            0 <= k < keys.len() && #[trigger] keys[k] == key,
        ({
            let after = offered(keys, found, key, value);
            &&& keys.contains(key) && !found.contains_key(key) ==> after.contains_key(key)
                && after[key] == value
            &&& !keys.contains(key) || found.contains_key(key) ==> after == found
            &&& other != key ==> after.contains_key(other) == found.contains_key(other)
            &&& other != key && found.contains_key(other) ==> after[other] == found[other]
        }),
        answers(keys, found).len() == keys.len(),
        0 <= i < keys.len() && found.contains_key(keys[i]) ==> answers(keys, found)[i] == Some(
            found[keys[i]],
        ),
        0 <= i < keys.len() && !found.contains_key(keys[i]) ==> answers(keys, found)[i] is None,
{
    if keys.contains(key) {
        let k = choose|k: int| 0 <= k < keys.len() && keys[k] == key;
        assert(keys[k] == key);
    }
}

/// The first of some keys comes before all the others.
pub proof fn first_key_comes_before_the_others(
    keys: Set<Seq<u8>>,
    key: Seq<u8>,
    other: Seq<u8>,
)
    requires
        is_first(keys, key),
    ensures
        keys.contains(key),
        keys.contains(other) ==> other == key || key_before(key, other),
{
}

} // verus!
