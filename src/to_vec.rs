use vstd::prelude::*;
use vstd::std_specs::iter::IteratorSpec;

verus! {

/// Collecting what an iterator yields into a vector.
pub trait ToVec: Iterator + Sized {
    /// Every element the iterator yields, in order, duplicates included.
    fn to_vec(self) -> (r: Vec<Self::Item>)
        requires
            self.obeys_prophetic_iter_laws(),
            self.decrease() is Some,
        ensures
            r@ == self.remaining(),
    ;
}

impl<I: Iterator> ToVec for I {
    fn to_vec(self) -> (r: Vec<Self::Item>) {
        let mut it = self;
        let mut result: Vec<Self::Item> = Vec::new();
        loop
            invariant
                it.obeys_prophetic_iter_laws(),
                it.decrease() is Some,
                self.remaining() == result@ + it.remaining(),
            ensures
                it.remaining().len() == 0,
            decreases it.decrease()->0,
        {
            match it.next() {
                Some(x) => result.push(x),
                None => break,
            }
        }
        result
    }
}

} // verus!
