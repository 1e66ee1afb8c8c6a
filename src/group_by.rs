use std::collections::HashMap;
use std::hash::Hash;
use vstd::prelude::*;
use vstd::std_specs::hash::obeys_key_model;
use vstd::std_specs::iter::IteratorSpec;

verus! {

/// Whether `get_key` can be called on every element and gives each element
/// exactly one key.
pub open spec fn pure_key_fn<T, K, F: Fn(&T) -> K>(get_key: F) -> bool {
    &&& forall|x: &T| #[trigger] get_key.requires((x,))
    &&& forall|x: &T, k1: K, k2: K|
        #![trigger get_key.ensures((x,), k1), get_key.ensures((x,), k2)]
        get_key.ensures((x,), k1) && get_key.ensures((x,), k2) ==> k1 == k2
}

/// The key that `get_key` gives `x`.
pub open spec fn key_of<T, K, F: Fn(&T) -> K>(get_key: F, x: T) -> K {
    choose|k: K| get_key.ensures((&x,), k)
}

/// The elements of `s` whose key is `k`, in their order in `s`.
pub open spec fn group_of<T, K>(s: Seq<T>, key: spec_fn(T) -> K, k: K) -> Seq<T> {
    s.filter(|x: T| key(x) == k)
}

/// Whether some element of `s` has the key `k`.
pub open spec fn has_key<T, K>(s: Seq<T>, key: spec_fn(T) -> K, k: K) -> bool {
    exists|i: int| 0 <= i < s.len() && key(#[trigger] s[i]) == k
}

/// The grouping of `s` by `key`: each key that some element has, mapped to
/// the elements with that key.
pub open spec fn groups_of<T, K>(s: Seq<T>, key: spec_fn(T) -> K) -> Map<K, Seq<T>> {
    Map::new(|k: K| has_key(s, key, k), |k: K| group_of(s, key, k))
}

/// The values of a map of vectors, as sequences.
pub open spec fn lists_view<K, T>(m: Map<K, Vec<T>>) -> Map<K, Seq<T>> {
    m.map_values(|v: Vec<T>| v@)
}

proof fn lemma_group_empty<T, K>(s: Seq<T>, key: spec_fn(T) -> K, k: K)
    requires
        !has_key(s, key, k),
    ensures
        group_of(s, key, k) == Seq::<T>::empty(),
    decreases s.len(),
{
    reveal(Seq::filter);
    if s.len() > 0 {
        let p = s.drop_last();
        assert(!has_key(p, key, k)) by {
            if has_key(p, key, k) {
                let i = choose|i: int| 0 <= i < p.len() && key(#[trigger] p[i]) == k;
                assert(s[i] == p[i]);
            }
        }
        lemma_group_empty(p, key, k);
        assert(s[s.len() - 1] == s.last());
    }
}

proof fn lemma_group_of_last<T, K>(s: Seq<T>, key: spec_fn(T) -> K, k: K)
    requires
        s.len() > 0,
    ensures
        group_of(s, key, k) == if key(s.last()) == k {
            group_of(s.drop_last(), key, k).push(s.last())
        } else {
            group_of(s.drop_last(), key, k)
        },
{
    reveal(Seq::filter);
}

/// The total length of the groups that `keys` lists, in `groups`.
pub open spec fn total_len<T, K>(groups: Map<K, Seq<T>>, keys: Seq<K>) -> int
    decreases keys.len(),
{
    if keys.len() == 0 {
        0
    } else {
        total_len(groups, keys.drop_last()) + groups[keys.last()].len()
    }
}

spec fn group_total<T, K>(s: Seq<T>, key: spec_fn(T) -> K, keys: Seq<K>) -> int
    decreases keys.len(),
{
    if keys.len() == 0 {
        0
    } else {
        group_total(s, key, keys.drop_last()) + group_of(s, key, keys.last()).len()
    }
}

proof fn lemma_group_total_empty<T, K>(key: spec_fn(T) -> K, keys: Seq<K>)
    ensures
        group_total(Seq::<T>::empty(), key, keys) == 0,
    decreases keys.len(),
{
    reveal(Seq::filter);
    if keys.len() > 0 {
        lemma_group_total_empty::<T, K>(key, keys.drop_last());
    }
}

proof fn lemma_group_total_step<T, K>(s: Seq<T>, key: spec_fn(T) -> K, keys: Seq<K>)
    requires
        s.len() > 0,
        keys.no_duplicates(),
    ensures
        group_total(s, key, keys) == group_total(s.drop_last(), key, keys) + if keys.contains(
            key(s.last()),
        ) {
            1int
        } else {
            0int
        },
    decreases keys.len(),
{
    if keys.len() > 0 {
        let rest = keys.drop_last();
        assert(rest.no_duplicates());
        lemma_group_total_step(s, key, rest);
        lemma_group_of_last(s, key, keys.last());
        let c = key(s.last());
        if keys.last() == c {
            assert(keys.contains(c));
            assert(!rest.contains(c)) by {
                if rest.contains(c) {
                    let i = choose|i: int| 0 <= i < rest.len() && rest[i] == c;
                    assert(keys[i] == keys[keys.len() - 1]);
                }
            }
        } else {
            assert(keys.contains(c) == rest.contains(c)) by {
                if keys.contains(c) {
                    let i = choose|i: int| 0 <= i < keys.len() && keys[i] == c;
                    assert(rest[i] == c);
                }
                if rest.contains(c) {
                    let i = choose|i: int| 0 <= i < rest.len() && rest[i] == c;
                    assert(keys[i] == c);
                }
            }
        }
    }
}

proof fn lemma_group_total<T, K>(s: Seq<T>, key: spec_fn(T) -> K, keys: Seq<K>)
    requires
        keys.no_duplicates(),
        forall|i: int| 0 <= i < s.len() ==> keys.contains(key(#[trigger] s[i])),
    ensures
        group_total(s, key, keys) == s.len(),
    decreases s.len(),
{
    if s.len() == 0 {
        lemma_group_total_empty::<T, K>(key, keys);
        assert(s =~= Seq::<T>::empty());
    } else {
        let p = s.drop_last();
        assert forall|i: int| 0 <= i < p.len() implies keys.contains(key(#[trigger] p[i])) by {
            assert(p[i] == s[i]);
        }
        lemma_group_total(p, key, keys);
        lemma_group_total_step(s, key, keys);
        assert(keys.contains(key(s[s.len() - 1])));
    }
}

proof fn lemma_total_len_is_group_total<T, K>(s: Seq<T>, key: spec_fn(T) -> K, keys: Seq<K>)
    requires
        forall|i: int| 0 <= i < keys.len() ==> groups_of(s, key).contains_key(#[trigger] keys[i]),
    ensures
        total_len(groups_of(s, key), keys) == group_total(s, key, keys),
    decreases keys.len(),
{
    if keys.len() > 0 {
        let rest = keys.drop_last();
        assert forall|i: int| 0 <= i < rest.len() implies groups_of(s, key).contains_key(
            #[trigger] rest[i],
        ) by {
            assert(rest[i] == keys[i]);
        }
        lemma_total_len_is_group_total(s, key, rest);
        assert(groups_of(s, key).contains_key(keys[keys.len() - 1]));
    }
}

/// Grouping loses and duplicates nothing: over any listing of the keys, each
/// once, the groups hold as many elements as the source.
pub proof fn group_sizes_sum_to_len<T, K>(s: Seq<T>, key: spec_fn(T) -> K, keys: Seq<K>)
    requires
        keys.no_duplicates(),
        keys.to_set() == groups_of(s, key).dom(),
    ensures
        total_len(groups_of(s, key), keys) == s.len(),
{
    assert forall|i: int| 0 <= i < keys.len() implies groups_of(s, key).contains_key(
        #[trigger] keys[i],
    ) by {
        assert(keys.to_set().contains(keys[i]));
    }
    assert forall|i: int| 0 <= i < s.len() implies keys.contains(key(#[trigger] s[i])) by {
        assert(has_key(s, key, key(s[i])));
        assert(keys.to_set().contains(key(s[i])));
    }
    lemma_total_len_is_group_total(s, key, keys);
    lemma_group_total(s, key, keys);
}

/// Each element of the source lies in the group of its own key, and in no
/// other group.
pub proof fn element_in_own_group_only<T, K>(s: Seq<T>, key: spec_fn(T) -> K, i: int)
    requires
        0 <= i < s.len(),
    ensures
        groups_of(s, key).contains_key(key(s[i])),
        groups_of(s, key)[key(s[i])].contains(s[i]),
        forall|k: K|
            #[trigger] groups_of(s, key).contains_key(k) && k != key(s[i]) ==> !groups_of(
                s,
                key,
            )[k].contains(s[i]),
{
    broadcast use Seq::lemma_filter_contains, Seq::lemma_filter_pred;

    assert(has_key(s, key, key(s[i])));
    let own = |x: T| key(x) == key(s[i]);
    s.lemma_filter_contains(own, i);
    assert forall|k: K|
        #[trigger] groups_of(s, key).contains_key(k) && k != key(s[i]) implies !groups_of(
        s,
        key,
    )[k].contains(s[i]) by {
        let keep = |x: T| key(x) == k;
        if s.filter(keep).contains(s[i]) {
            let m = choose|m: int| 0 <= m < s.filter(keep).len() && s.filter(keep)[m] == s[i];
            s.lemma_filter_pred(keep, m);
        }
    }
}

/// Grouping what an iterator yields by a key.
pub trait GroupBy: Iterator + Sized {
    /// A map from each key that `get_key` gives some element to the elements
    /// with that key, in the order the iterator yields them. `get_key` is called
    /// once per element.
    fn group_by<T: Hash + Eq, U: Fn(&Self::Item) -> T>(self, get_key: U) -> (r: HashMap<
        T,
        Vec<Self::Item>,
    >)
        requires
            obeys_key_model::<T>(),
            pure_key_fn(get_key),
            self.obeys_prophetic_iter_laws(),
            self.decrease() is Some,
        ensures
            lists_view(r@) == groups_of(self.remaining(), |x: Self::Item| key_of(get_key, x)),
    ;
}

impl<I: Iterator> GroupBy for I {
    fn group_by<T: Hash + Eq, U: Fn(&Self::Item) -> T>(self, get_key: U) -> (r: HashMap<
        T,
        Vec<Self::Item>,
    >) {
        broadcast use vstd::std_specs::hash::group_hash_axioms;

        let ghost key = |x: Self::Item| key_of(get_key, x);
        let mut it = self;
        let ghost seen: Seq<Self::Item> = Seq::empty();
        let mut dict: HashMap<T, Vec<Self::Item>> = HashMap::new();
        proof {
            assert(lists_view(dict@) =~= groups_of(seen, key));
        }
        loop
            invariant
                obeys_key_model::<T>(),
                pure_key_fn(get_key),
                key == (|x: Self::Item| key_of(get_key, x)),
                it.obeys_prophetic_iter_laws(),
                it.decrease() is Some,
                self.remaining() == seen + it.remaining(),
                lists_view(dict@) == groups_of(seen, key),
            ensures
                it.remaining().len() == 0,
            decreases it.decrease()->0,
        {
            match it.next() {
                Some(v) => {
                    let k = get_key(&v);
                    let ghost before = seen;
                    proof {
                        assert(key(v) == k);
                        seen = seen.push(v);
                        assert(seen.drop_last() =~= before);
                    }
                    proof {
                        assert(lists_view(dict@).dom() == dict@.dom());
                        assert(dict@.contains_key(k) == groups_of(before, key).contains_key(k));
                    }
                    let ghost old_map = dict@;
                    match dict.remove(&k) {
                        None => {
                            proof {
                                lemma_group_empty(before, key, k);
                            }
                            let mut list: Vec<Self::Item> = Vec::new();
                            list.push(v);
                            proof {
                                assert(list@ =~= group_of(before, key, k).push(v));
                            }
                            dict.insert(k, list);
                        },
                        Some(mut list) => {
                            proof {
                                assert(list@ == lists_view(old_map)[k]);
                            }
                            list.push(v);
                            dict.insert(k, list);
                        },
                    }
                    proof {
                        assert(dict@ == old_map.insert(k, dict@[k]));
                        assert(dict@[k]@ == group_of(before, key, k).push(v));
                        assert forall|j: T| #[trigger] group_of(seen, key, j) == if j == k {
                            group_of(before, key, j).push(v)
                        } else {
                            group_of(before, key, j)
                        } by {
                            lemma_group_of_last(seen, key, j);
                        }
                        assert forall|j: T| #[trigger] has_key(seen, key, j) == (has_key(before, key, j) || j == k) by {
                            if has_key(before, key, j) {
                                let i = choose|i: int| 0 <= i < before.len() && key(#[trigger] before[i]) == j;
                                assert(seen[i] == before[i]);
                            }
                            if j == k {
                                assert(seen[before.len() as int] == v);
                            }
                            if has_key(seen, key, j) && j != k {
                                let i = choose|i: int| 0 <= i < seen.len() && key(#[trigger] seen[i]) == j;
                                assert(i < before.len());
                                assert(before[i] == seen[i]);
                            }
                        }
                        assert(lists_view(dict@) =~= groups_of(seen, key)) by {
                            assert forall|j: T| #[trigger] lists_view(dict@).contains_key(j) implies lists_view(dict@)[j] == groups_of(seen, key)[j] by {
                                assert(has_key(seen, key, j));
                                assert(lists_view(dict@)[j] == dict@[j]@);
                                if j != k {
                                    assert(dict@[j] == old_map[j]);
                                    assert(lists_view(old_map)[j] == old_map[j]@);
                                    assert(group_of(seen, key, j) == group_of(before, key, j));
                                } else {
                                    assert(group_of(seen, key, k) == group_of(before, key, k).push(v));
                                }
                            }
                        }
                    }
                },
                None => break,
            }
        }
        proof {
            assert(seen =~= self.remaining());
        }
        dict
    }
}

} // verus!
