use crate::base::EnumIndex;
use crate::base::EnumSize;
use crate::base::Enumoid;
use crate::map::replace_element;
use crate::map::swap_elements;
use crate::opt_map::is_prefix;
use crate::opt_map::EnumOptionMap;
use core::marker::PhantomData;
use vstd::prelude::*;

verus! {

/// Popping right after a push gives back the value pushed and the vector as it was.
pub proof fn lemma_push_pop<V>(s: Seq<V>, v: V)
    ensures
        s.push(v).len() > 0,
        s.push(v).last() == v,
        s.push(v).drop_last() == s,
{
    assert(s.push(v).drop_last() =~= s);
}

/// Removing a value keeps the others in their order: those before it stay, and
/// those after it move down by one.
pub proof fn lemma_remove_keeps_order<V>(s: Seq<V>, k: int)
    requires
        0 <= k < s.len(),
    ensures
        s.remove(k).len() == s.len() - 1,
        forall|i: int| 0 <= i < k ==> #[trigger] s.remove(k)[i] == s[i],
        forall|i: int| k <= i < s.len() - 1 ==> #[trigger] s.remove(k)[i] == s[i + 1],
{
}

/// Removing by swapping in the last value puts that value at the removed
/// position and keeps the others where they are.
pub proof fn lemma_swap_remove_moves_last<V>(s: Seq<V>, k: int)
    requires
        0 <= k < s.len(),
    ensures
        s.update(k, s.last()).drop_last().len() == s.len() - 1,
        k < s.len() - 1 ==> s.update(k, s.last()).drop_last()[k] == s.last(),
        forall|i: int| 0 <= i < s.len() - 1 && i != k ==> #[trigger] s.update(k, s.last()).drop_last()[i] == s[i],
{
}

/// A vector of at most as many values `V` as the domain `T` has keys, indexed by
/// the keys from the first one on.
#[derive(Debug, Hash)]
pub struct EnumVec<T: Enumoid, V> {
    data: Vec<V>,
    key: PhantomData<T>,
}

impl<T: Enumoid, V> View for EnumVec<T, V> {
    /// The values, the one of the first key first.
    type V = Seq<V>;

    closed spec fn view(&self) -> Seq<V> {
        self.data@
    }
}

impl<T: Enumoid, V> EnumVec<T, V> {
    /// The vector holds no more values than the domain has keys.
    pub closed spec fn wf(&self) -> bool {
        self.data@.len() <= T::SIZE
    }

    /// A well-formed vector holds at most one value for each key.
    pub proof fn lemma_view_len(&self)
        requires
            self.wf(),
        ensures
            self@.len() <= T::SIZE,
    {
    }

    /// Creates a new vector with no elements.
    pub fn new() -> (r: Self)
        ensures
            r.wf(),
            r@ == Seq::<V>::empty(),
    {
        EnumVec { data: Vec::new(), key: PhantomData }
    }

    /// Creates a new vector with a specified number of elements generated by a
    /// callback function, called once for each key in ascending order.
    pub fn new_with<F: Fn(T) -> V>(size: EnumSize<T>, f: F) -> (r: Self)
        requires
            forall|k: T| call_requires(f, (k,)),
        ensures
            r.wf(),
            r@.len() == size@,
            forall|k: T|
                #[trigger] k.spec_word() < size@ ==> call_ensures(f, (k,), r@[k.spec_word() as int]),
    {
        let n = size.into_usize();
        let mut v = Self::new();
        let mut i: usize = 0;
        while i < n
            invariant
                i <= n,
                n <= T::SIZE,
                v.wf(),
                v@.len() == i,
                forall|k: T| call_requires(f, (k,)),
                forall|k: T|
                    #[trigger] k.spec_word() < i ==> call_ensures(f, (k,), v@[k.spec_word() as int]),
            decreases n - i,
        {
            let key = EnumIndex::<T>::from_usize_unchecked(i).into_value();
            v.push(f(key));
            i = i + 1;
        }
        v
    }

    /// Returns a slice containing all the values in the vector.
    pub fn as_slice(&self) -> (r: &[V])
        ensures
            r@ == self@,
    {
        self.data.as_slice()
    }

    /// Returns a mutable slice containing all the values in the vector. Writes
    /// through it keep its length, so the vector stays well formed.
    pub fn as_slice_mut(&mut self) -> (r: &mut [V])
        requires
            old(self).wf(),
        ensures
            r@ == old(self)@,
            final(self)@ == final(r)@,
            final(r)@.len() == r@.len() ==> final(self).wf(),
    {
        self.data.as_mut_slice()
    }

    /// Returns a reference to the value associated with a given index,
    /// or `None` if the index is beyond the end of the vector.
    pub fn get_by_index(&self, index: EnumIndex<T>) -> (r: Option<&V>)
        ensures
            r.is_some() == (index@ < self@.len()),
            r.is_some() ==> *r.unwrap() == self@[index@ as int],
    {
        let i = index.into_usize();
        if i < self.data.len() {
            Some(&self.data[i])
        } else {
            None
        }
    }

    /// Returns a reference to the value associated with a given key,
    /// or `None` if the key is beyond the end of the vector.
    pub fn get(&self, key: T) -> (r: Option<&V>)
        ensures
            key.spec_word() < T::SIZE,
            r.is_some() == (key.spec_word() < self@.len()),
            r.is_some() ==> *r.unwrap() == self@[key.spec_word() as int],
    {
        self.get_by_index(EnumIndex::from_value(key))
    }

    /// Returns a mutable reference to the value associated with a given index,
    /// or `None` if the index is beyond the end of the vector.
    pub fn get_by_index_mut(&mut self, index: EnumIndex<T>) -> (r: Option<&mut V>)
        requires
            old(self).wf(),
        ensures
            r.is_some() == (index@ < old(self)@.len()),
            r.is_some() ==> *r.unwrap() == old(self)@[index@ as int],
            final(self).wf(),
            r.is_some() ==> final(self)@ == old(self)@.update(index@ as int, *final(r.unwrap())),
            r.is_none() ==> final(self)@ == old(self)@,
    {
        let i = index.into_usize();
        if i < self.data.len() {
            Some(&mut self.data[i])
        } else {
            None
        }
    }

    /// Returns a mutable reference to the value associated with a given key,
    /// or `None` if the key is beyond the end of the vector.
    pub fn get_mut(&mut self, key: T) -> (r: Option<&mut V>)
        requires
            old(self).wf(),
        ensures
            key.spec_word() < T::SIZE,
            r.is_some() == (key.spec_word() < old(self)@.len()),
            r.is_some() ==> *r.unwrap() == old(self)@[key.spec_word() as int],
            final(self).wf(),
            r.is_some() ==> final(self)@ == old(self)@.update(
                key.spec_word() as int,
                *final(r.unwrap()),
            ),
            r.is_none() ==> final(self)@ == old(self)@,
    {
        self.get_by_index_mut(EnumIndex::from_value(key))
    }

    /// Returns true if the vector is empty.
    pub fn is_empty(&self) -> (r: bool)
        ensures
            r == (self@.len() == 0),
    {
        self.data.len() == 0
    }

    /// Returns true if the vector is fully populated.
    pub fn is_full(&self) -> (r: bool)
        ensures
            r == (self@.len() == T::SIZE),
    {
        self.data.len() == T::SIZE
    }

    /// Creates a vector holding `values` in order, the first for the first key.
    pub fn from_iter(values: Vec<V>) -> (r: Self)
        requires
            values@.len() <= T::SIZE,
        ensures
            r.wf(),
            r@ == values@,
    {
        EnumVec { data: values, key: PhantomData }
    }

    /// Returns true if the vector contains the index.
    pub fn contains_index(&self, index: EnumIndex<T>) -> (r: bool)
        ensures
            r == (index@ < self@.len()),
    {
        index.into_usize() < self.data.len()
    }

    /// Returns true if the vector contains the key.
    pub fn contains(&self, value: T) -> (r: bool)
        ensures
            value.spec_word() < T::SIZE,
            r == (value.spec_word() < self@.len()),
    {
        EnumIndex::from_value(value).into_usize() < self.data.len()
    }

    /// Returns the size of the vector.
    pub fn size(&self) -> (r: EnumSize<T>)
        requires
            self.wf(),
        ensures
            r@ == self@.len(),
    {
        EnumSize::from_usize_unchecked(self.data.len())
    }

    /// Swaps two elements in the vector; both keys must be within it.
    pub fn swap(&mut self, a: T, b: T)
        requires
            old(self).wf(),
            a.spec_word() < old(self)@.len(),
            b.spec_word() < old(self)@.len(),
        ensures
            a.spec_word() < T::SIZE,
            b.spec_word() < T::SIZE,
            final(self).wf(),
            final(self)@ == old(self)@.update(a.spec_word() as int, old(self)@[b.spec_word() as int]).update(
                b.spec_word() as int,
                old(self)@[a.spec_word() as int],
            ),
    {
        let i = EnumIndex::from_value(a).into_usize();
        let j = EnumIndex::from_value(b).into_usize();
        swap_elements(&mut self.data, i, j)
    }

    /// Removes the element at an index and returns it, replacing it with the
    /// last element; `None` where the index is beyond the end of the vector.
    pub fn swap_remove_at_index(&mut self, index: EnumIndex<T>) -> (r: Option<V>)
        requires
            old(self).wf(),
        ensures
            final(self).wf(),
            index@ < old(self)@.len() ==> r == Some(old(self)@[index@ as int]) && final(self)@
                == old(self)@.update(index@ as int, old(self)@.last()).drop_last(),
            index@ >= old(self)@.len() ==> r.is_none() && final(self)@ == old(self)@,
    {
        let i = index.into_usize();
        if i < self.data.len() {
            let ghost pre = self.data@;
            let value = self.data.swap_remove(i);
            proof {
                assert(self.data@ =~= pre.update(i as int, pre.last()).drop_last());
            }
            Some(value)
        } else {
            None
        }
    }

    /// Removes an element and returns it, replacing it with the last element.
    pub fn swap_remove(&mut self, key: T) -> (r: Option<V>)
        requires
            old(self).wf(),
        ensures
            key.spec_word() < T::SIZE,
            final(self).wf(),
            key.spec_word() < old(self)@.len() ==> r == Some(old(self)@[key.spec_word() as int])
                && final(self)@ == old(self)@.update(
                key.spec_word() as int,
                old(self)@.last(),
            ).drop_last(),
            key.spec_word() >= old(self)@.len() ==> r.is_none() && final(self)@ == old(self)@,
    {
        self.swap_remove_at_index(EnumIndex::from_value(key))
    }

    /// Removes the element at an index and returns it, moving the ones after it
    /// down by one; `None` where the index is beyond the end of the vector.
    pub fn remove_at_index(&mut self, index: EnumIndex<T>) -> (r: Option<V>)
        requires
            old(self).wf(),
        ensures
            final(self).wf(),
            index@ < old(self)@.len() ==> r == Some(old(self)@[index@ as int]) && final(self)@
                == old(self)@.remove(index@ as int),
            index@ >= old(self)@.len() ==> r.is_none() && final(self)@ == old(self)@,
    {
        let i = index.into_usize();
        if i < self.data.len() {
            Some(self.data.remove(i))
        } else {
            None
        }
    }

    /// Removes an element and returns it, moving the ones after it down by one.
    pub fn remove(&mut self, key: T) -> (r: Option<V>)
        requires
            old(self).wf(),
        ensures
            key.spec_word() < T::SIZE,
            final(self).wf(),
            key.spec_word() < old(self)@.len() ==> r == Some(old(self)@[key.spec_word() as int])
                && final(self)@ == old(self)@.remove(key.spec_word() as int),
            key.spec_word() >= old(self)@.len() ==> r.is_none() && final(self)@ == old(self)@,
    {
        self.remove_at_index(EnumIndex::from_value(key))
    }

    /// Clears all the elements from the vector.
    pub fn clear(&mut self)
        ensures
            final(self).wf(),
            final(self)@ == Seq::<V>::empty(),
    {
        self.data.clear();
    }

    /// Adds an element to the end of the vector, which must not be full.
    pub fn push(&mut self, value: V)
        requires
            old(self).wf(),
            old(self)@.len() < T::SIZE,
        ensures
            final(self).wf(),
            final(self)@ == old(self)@.push(value),
    {
        self.data.push(value);
    }

    /// Removes an element from the end of the vector and returns it,
    /// or `None` if the vector is empty.
    pub fn pop(&mut self) -> (r: Option<V>)
        requires
            old(self).wf(),
        ensures
            final(self).wf(),
            old(self)@.len() > 0 ==> r == Some(old(self)@.last()) && final(self)@
                == old(self)@.drop_last(),
            old(self)@.len() == 0 ==> r.is_none() && final(self)@ == old(self)@,
    {
        self.data.pop()
    }

    /// Returns the keys with their values, in ascending order of keys.
    pub fn iter(&self) -> (r: Vec<(T, &V)>)
        requires
            self.wf(),
        ensures
            r@.len() == self@.len(),
            forall|i: int|
                0 <= i < self@.len() ==> (#[trigger] r@[i]).0.spec_word() == i && r@[i].1 == &self@[i],
    {
        let mut out: Vec<(T, &V)> = Vec::new();
        let mut i: usize = 0;
        while i < self.data.len()
            invariant
                i <= self@.len(),
                self.wf(),
                out@.len() == i,
                forall|j: int|
                    0 <= j < i ==> (#[trigger] out@[j]).0.spec_word() == j && out@[j].1 == &self@[j],
            decreases self@.len() - i,
        {
            let key = EnumIndex::<T>::from_usize_unchecked(i).into_value();
            out.push((key, &self.data[i]));
            i = i + 1;
        }
        out
    }

    /// Converts a partial map whose populated keys are the first ones of the
    /// domain, with no gap; fails on any other.
    pub fn try_from(from: EnumOptionMap<T, V>) -> (r: Result<Self, ()>)
        requires
            from.wf(),
        ensures
            r.is_ok() == exists|n: nat| is_prefix(from@, n),
            r.is_ok() ==> r.unwrap().wf() && is_prefix(from@, r.unwrap()@.len()) && forall|i: int|
                0 <= i < r.unwrap()@.len() ==> #[trigger] r.unwrap()@[i] == from@[i].unwrap(),
    {
        match from.is_vec() {
            None => Err(()),
            Some(size) => {
                let n = size.into_usize();
                let ghost src = from@;
                let mut slots = from.into_slots();
                let mut out: Vec<V> = Vec::new();
                let mut i: usize = 0;
                while i < n
                    invariant
                        i <= n,
                        n <= T::SIZE,
                        is_prefix(src, n as nat),
                        slots@.len() == T::SIZE,
                        forall|j: int| i <= j < T::SIZE ==> #[trigger] slots@[j] == src[j],
                        out@.len() == i,
                        forall|j: int| 0 <= j < i ==> #[trigger] out@[j] == src[j].unwrap(),
                    decreases n - i,
                {
                    let slot = replace_element(&mut slots, i, None);
                    proof {
                        assert(src[i as int].is_some());
                    }
                    out.push(slot.unwrap());
                    i = i + 1;
                }
                Ok(EnumVec { data: out, key: PhantomData })
            },
        }
    }
}

impl<T: Enumoid, V: Clone> Clone for EnumVec<T, V> {
    fn clone(&self) -> (r: Self)
        ensures
            r@.len() == self@.len(),
            forall|i: int| 0 <= i < self@.len() ==> cloned(self@[i], #[trigger] r@[i]),
            self.wf() ==> r.wf(),
    {
        let mut data: Vec<V> = Vec::new();
        let mut i: usize = 0;
        while i < self.data.len()
            invariant
                i <= self.data@.len(),
                data@.len() == i,
                forall|j: int| 0 <= j < i ==> cloned(self.data@[j], #[trigger] data@[j]),
            decreases self.data@.len() - i,
        {
            data.push(self.data[i].clone());
            i = i + 1;
        }
        EnumVec { data, key: PhantomData }
    }
}

impl<T: Enumoid, V> Default for EnumVec<T, V> {
    fn default() -> (r: Self)
        ensures
            r.wf(),
            r@ == Seq::<V>::empty(),
    {
        Self::new()
    }
}

impl<T: Enumoid, V> EnumVec<T, V> {
    /// The two hold equal values at every position, by `V`'s own equality.
    pub closed spec fn spec_eq(&self, other: &Self) -> bool where V: PartialEq {
        vstd::std_specs::cmp::PartialEqSpec::eq_spec(&self.data, &other.data)
    }
}

impl<T: Enumoid, V: PartialEq> PartialEq for EnumVec<T, V> {
    fn eq(&self, other: &Self) -> (r: bool) {
        self.data == other.data
    }
}

impl<T: Enumoid, V: PartialEq> vstd::std_specs::cmp::PartialEqSpecImpl for EnumVec<T, V> {
    open spec fn obeys_eq_spec() -> bool {
        <V as vstd::std_specs::cmp::PartialEqSpec>::obeys_eq_spec()
    }

    open spec fn eq_spec(&self, other: &Self) -> bool {
        self.spec_eq(other)
    }
}

impl<T: Enumoid, V: Eq> Eq for EnumVec<T, V> {
}

} // verus!
