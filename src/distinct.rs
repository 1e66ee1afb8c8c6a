use vstd::prelude::*;
use vstd::std_specs::cmp::PartialEqSpec;
use vstd::std_specs::iter::IteratorSpec;

verus! {

/// Whether some element of `s` compares equal to `x`, as `s[j] == x` does.
pub open spec fn has_equal<T: PartialEq>(s: Seq<T>, x: T) -> bool {
    exists|j: int| 0 <= j < s.len() && #[trigger] s[j].eq_spec(&x)
}

/// The elements of `s` that compare equal to no earlier kept element,
/// in the order of their first occurrence.
pub open spec fn distinct_of<T: PartialEq>(s: Seq<T>) -> Seq<T>
    decreases s.len(),
{
    if s.len() == 0 {
        Seq::empty()
    } else {
        let kept = distinct_of(s.drop_last());
        if has_equal(kept, s.last()) {
            kept
        } else {
            kept.push(s.last())
        }
    }
}

/// Whether no element of `s` compares equal to a later one.
pub open spec fn no_repeats<T: PartialEq>(s: Seq<T>) -> bool {
    forall|j: int, k: int|
        #![trigger s[j], s[k]]
        0 <= j < k < s.len() ==> !s[j].eq_spec(&s[k])
}

/// Whether `==` on `T` is symmetric.
pub open spec fn eq_symmetric<T: PartialEq>() -> bool {
    forall|a: T, b: T| #[trigger] a.eq_spec(&b) ==> b.eq_spec(&a)
}

proof fn lemma_distinct_no_repeats<T: PartialEq>(s: Seq<T>)
    ensures
        no_repeats(distinct_of(s)),
    decreases s.len(),
{
    if s.len() > 0 {
        lemma_distinct_no_repeats(s.drop_last());
    }
}

proof fn lemma_distinct_from_source<T: PartialEq>(s: Seq<T>)
    ensures
        forall|i: int| 0 <= i < distinct_of(s).len() ==> s.contains(#[trigger] distinct_of(s)[i]),
    decreases s.len(),
{
    if s.len() > 0 {
        let p = s.drop_last();
        lemma_distinct_from_source(p);
        assert forall|i: int| 0 <= i < distinct_of(s).len() implies s.contains(
            #[trigger] distinct_of(s)[i],
        ) by {
            if i < distinct_of(p).len() {
                let j = choose|j: int| 0 <= j < p.len() && p[j] == distinct_of(p)[i];
                assert(s[j] == p[j]);
            } else {
                assert(s[s.len() - 1] == s.last());
            }
        }
    }
}

/// A sequence in which no element equals a later one is its own distinct form.
proof fn lemma_distinct_of_no_repeats<T: PartialEq>(s: Seq<T>)
    requires
        no_repeats(s),
    ensures
        distinct_of(s) == s,
    decreases s.len(),
{
    if s.len() > 0 {
        let p = s.drop_last();
        assert(no_repeats(p)) by {
            assert forall|j: int, k: int|
                #![trigger p[j], p[k]]
                0 <= j < k < p.len() implies !p[j].eq_spec(&p[k]) by {
                assert(p[j] == s[j] && p[k] == s[k]);
            }
        }
        lemma_distinct_of_no_repeats(p);
        assert(!has_equal(p, s.last())) by {
            assert forall|j: int| 0 <= j < p.len() implies !(#[trigger] p[j]).eq_spec(&s.last()) by {
                assert(p[j] == s[j]);
                assert(s.last() == s[s.len() - 1]);
            }
        }
        assert(p.push(s.last()) =~= s);
    }
}

/// Taking the distinct elements of a sequence twice gives what taking them once gave.
pub proof fn distinct_idempotent<T: PartialEq>(s: Seq<T>)
    ensures
        distinct_of(distinct_of(s)) == distinct_of(s),
{
    lemma_distinct_no_repeats(s);
    lemma_distinct_of_no_repeats(distinct_of(s));
}

/// Every element kept by `distinct` occurs in the source, and no two kept
/// elements compare equal.
pub proof fn distinct_kept_from_source_and_unequal<T: PartialEq>(s: Seq<T>)
    requires
        eq_symmetric::<T>(),
    ensures
        forall|i: int| 0 <= i < distinct_of(s).len() ==> s.contains(#[trigger] distinct_of(s)[i]),
        forall|j: int, k: int|
            #![trigger distinct_of(s)[j], distinct_of(s)[k]]
            0 <= j < distinct_of(s).len() && 0 <= k < distinct_of(s).len() && j != k
                ==> !distinct_of(s)[j].eq_spec(&distinct_of(s)[k]),
{
    lemma_distinct_from_source(s);
    lemma_distinct_no_repeats(s);
    let d = distinct_of(s);
    assert forall|j: int, k: int|
        #![trigger d[j], d[k]]
        0 <= j < d.len() && 0 <= k < d.len() && j != k implies !d[j].eq_spec(&d[k]) by {
        if k < j {
            if d[j].eq_spec(&d[k]) {
                assert(d[k].eq_spec(&d[j]));
            }
        }
    }
}

/// Collecting what an iterator yields with duplicates removed.
pub trait Distinct: Iterator + Sized where Self::Item: PartialEq {
    /// Each element that compares equal to no earlier one, in the order of
    /// first occurrence. Membership is tested with `==` alone, by a linear scan.
    fn distinct(self) -> (r: Vec<Self::Item>)
        requires
            <Self::Item as PartialEqSpec>::obeys_eq_spec(),
            self.obeys_prophetic_iter_laws(),
            self.decrease() is Some,
        ensures
            r@ == distinct_of(self.remaining()),
    ;
}

/// Whether `v` holds an element that compares equal to `x`.
fn contains_equal<T: PartialEq>(v: &Vec<T>, x: &T) -> (r: bool)
    requires
        T::obeys_eq_spec(),
    ensures
        r == has_equal(v@, *x),
{
    let mut j: usize = 0;
    while j < v.len()
        invariant
            T::obeys_eq_spec(),
            j <= v@.len(),
            forall|i: int| 0 <= i < j ==> !(#[trigger] v@[i]).eq_spec(x),
        decreases v@.len() - j,
    {
        if v[j] == *x {
            return true;
        }
        j = j + 1;
    }
    false
}

impl<I: Iterator> Distinct for I where I::Item: PartialEq {
    fn distinct(self) -> (r: Vec<Self::Item>) {
        let mut it = self;
        let ghost seen: Seq<Self::Item> = Seq::empty();
        let mut kept: Vec<Self::Item> = Vec::new();
        loop
            invariant
                <Self::Item as PartialEqSpec>::obeys_eq_spec(),
                it.obeys_prophetic_iter_laws(),
                it.decrease() is Some,
                self.remaining() == seen + it.remaining(),
                kept@ == distinct_of(seen),
            ensures
                it.remaining().len() == 0,
            decreases it.decrease()->0,
        {
            match it.next() {
                Some(x) => {
                    proof {
                        assert(seen.push(x).drop_last() =~= seen);
                        seen = seen.push(x);
                    }
                    if !contains_equal(&kept, &x) {
                        kept.push(x);
                    }
                },
                None => break,
            }
        }
        proof {
            assert(seen =~= self.remaining());
        }
        kept
    }
}

} // verus!
