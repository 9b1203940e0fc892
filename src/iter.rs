use crate::base::EnumIndex;
use crate::base::Enumoid;
use core::marker::PhantomData;
use vstd::prelude::*;

verus! {

/// Walks over the values of a map or a vector from both ends, each with its
/// key: the value at position `i` belongs to the key at position `i`.
pub struct EnumSliceIter<'a, T: Enumoid, V> {
    slice: &'a [V],
    front: usize,
    back: usize,
    key: PhantomData<T>,
}

impl<'a, T: Enumoid, V> View for EnumSliceIter<'a, T, V> {
    /// The positions still to come, in order.
    type V = Seq<nat>;

    closed spec fn view(&self) -> Seq<nat> {
        Seq::new((self.back - self.front) as nat, |i: int| (self.front + i) as nat)
    }
}

impl<'a, T: Enumoid, V> EnumSliceIter<'a, T, V> {
    /// The values walked over.
    pub closed spec fn spec_values(&self) -> Seq<V> {
        self.slice@
    }

    pub closed spec fn wf(&self) -> bool {
        &&& self.front <= self.back
        &&& self.back <= self.slice@.len()
        &&& self.slice@.len() <= T::SIZE
    }

    /// Walks over `slice`, whose first value belongs to the first key.
    pub fn new(slice: &'a [V]) -> (r: Self)
        requires
            slice@.len() <= T::SIZE,
        ensures
            r.wf(),
            r.spec_values() == slice@,
            r@ == Seq::new(slice@.len(), |i: int| i as nat),
    {
        let r = EnumSliceIter { slice, front: 0, back: slice.len(), key: PhantomData };
        proof {
            assert(r@ =~= Seq::new(slice@.len(), |i: int| i as nat));
        }
        r
    }

    /// How many values are still to come.
    pub fn len(&self) -> (r: usize)
        requires
            self.wf(),
        ensures
            r == self@.len(),
    {
        self.back - self.front
    }

    /// Exactly as many values as `len` says are still to come.
    pub fn size_hint(&self) -> (r: (usize, Option<usize>))
        requires
            self.wf(),
        ensures
            r.0 == self@.len(),
            r.1 == Some(r.0),
    {
        let n = self.len();
        (n, Some(n))
    }

    /// The next key with its value from the front, or `None` at the end.
    pub fn next(&mut self) -> (r: Option<(T, &'a V)>)
        requires
            old(self).wf(),
        ensures
            final(self).wf(),
            final(self).spec_values() == old(self).spec_values(),
            old(self)@.len() == 0 ==> r.is_none() && final(self)@ == old(self)@,
            old(self)@.len() > 0 ==> r.is_some() && r.unwrap().0.spec_word() == old(self)@[0]
                && *r.unwrap().1 == old(self).spec_values()[old(self)@[0] as int] && final(self)@
                == old(self)@.drop_first(),
    {
        if self.front < self.back {
            let i = self.front;
            let key = EnumIndex::<T>::from_usize_unchecked(i).into_value();
            self.front = i + 1;
            proof {
                assert(self@ =~= old(self)@.drop_first());
            }
            Some((key, &self.slice[i]))
        } else {
            None
        }
    }

    /// The next key with its value from the back, or `None` at the end.
    pub fn next_back(&mut self) -> (r: Option<(T, &'a V)>)
        requires
            old(self).wf(),
        ensures
            final(self).wf(),
            final(self).spec_values() == old(self).spec_values(),
            old(self)@.len() == 0 ==> r.is_none() && final(self)@ == old(self)@,
            old(self)@.len() > 0 ==> r.is_some() && r.unwrap().0.spec_word() == old(self)@.last()
                && *r.unwrap().1 == old(self).spec_values()[old(self)@.last() as int]
                && final(self)@ == old(self)@.drop_last(),
    {
        if self.front < self.back {
            let i = self.back - 1;
            let key = EnumIndex::<T>::from_usize_unchecked(i).into_value();
            self.back = i;
            proof {
                assert(self@ =~= old(self)@.drop_last());
            }
            Some((key, &self.slice[i]))
        } else {
            None
        }
    }
}

} // verus!
