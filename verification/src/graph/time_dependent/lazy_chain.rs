//! One sequence after another, the second made only when the first is used up.
use vstd::prelude::*;

verus! {

/// Hands out the elements of a first sequence, then those of a second one
/// that is produced when the first has run out, and only then.
pub struct LazyChain<T, F> {
    iter: Vec<T>,
    produce_second: Option<F>,
}

impl<T, F: FnOnce() -> Vec<T>> LazyChain<T, F> {
    /// The elements that are at hand, the next one first.
    pub closed spec fn spec_at_hand(&self) -> Seq<T> {
        self.iter@.reverse()
    }

    /// What produces the second sequence, as long as it has not been called.
    pub closed spec fn spec_second(&self) -> Option<F> {
        self.produce_second
    }

    /// The elements of `first`, then those that `produce_second` gives.
    pub fn new(first: Vec<T>, produce_second: F) -> (r: Self)
        ensures
            r.spec_at_hand() == first@,
            r.spec_second() == Some(produce_second),
    {
        let mut iter = first;
        reverse(&mut iter);
        proof {
            assert(first@.reverse().reverse() =~= first@);
        }
        LazyChain { iter, produce_second: Some(produce_second) }
    }

    /// The next element: the next one at hand; where none is at hand and
    /// the second sequence has not been produced, it is produced, and its
    /// first element is the next.
    pub fn next(&mut self) -> (r: Option<T>)
        requires
            old(self).spec_second() matches Some(f) ==> f.requires(()),
        ensures
            old(self).spec_at_hand().len() > 0 ==> r == Some(old(self).spec_at_hand()[0]) && final(self).spec_at_hand() == old(self).spec_at_hand().drop_first() && final(self).spec_second() == old(self).spec_second(),
            old(self).spec_at_hand().len() == 0 ==> final(self).spec_second().is_none(),
            old(self).spec_at_hand().len() == 0 && old(self).spec_second().is_none() ==> r.is_none()
                && final(self).spec_at_hand().len() == 0,
            old(self).spec_at_hand().len() == 0 ==> (old(self).spec_second() matches Some(f)
                ==> exists|second: Vec<T>|
                #[trigger] f.ensures((), second) && (if second@.len() > 0 {
                    r == Some(second@[0]) && final(self).spec_at_hand() == second@.drop_first()
                } else {
                    r.is_none() && final(self).spec_at_hand().len() == 0
                })),
    {
        if self.iter.len() == 0 {
            if let Some(f) = self.produce_second.take() {
                let mut second = f();
                let ghost produced = second@;
                reverse(&mut second);
                self.iter = second;
                proof {
                    assert(produced.reverse().reverse() =~= produced);
                }
            }
        }
        let ghost before = self.iter@;
        let r = self.iter.pop();
        proof {
            if before.len() > 0 {
                assert(self.iter@.reverse() =~= before.reverse().drop_first());
            }
        }
        r
    }
}

/// Turns a vector round.
fn reverse<T>(v: &mut Vec<T>)
    ensures
        final(v)@ == old(v)@.reverse(),
{
    let mut turned: Vec<T> = Vec::new();
    let ghost start = v@;
    while v.len() > 0
        invariant
            v@.len() <= start.len(),
            v@ == start.take(v@.len() as int),
            turned@.len() == start.len() - v@.len(),
            forall|i: int| 0 <= i < turned@.len() ==> #[trigger] turned@[i] == start[start.len() - 1 - i],
        decreases v@.len(),
    {
        let ghost before = v@;
        match v.pop() {
            Some(last) => {
                turned.push(last);
                proof {
                    assert(v@ =~= start.take(v@.len() as int));
                }
            },
            None => {},
        }
    }
    *v = turned;
    proof {
        assert(v@ =~= start.reverse());
    }
}

} // verus!
