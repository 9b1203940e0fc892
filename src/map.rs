use crate::base::EnumIndex;
use crate::base::Enumoid;
use core::marker::PhantomData;
use vstd::prelude::*;

verus! {

/// Exchanges the elements at `a` and `b`.
pub(crate) fn swap_elements<V>(v: &mut Vec<V>, a: usize, b: usize)
    requires
        a < old(v)@.len(),
        b < old(v)@.len(),
    ensures
        final(v)@ == old(v)@.update(a as int, old(v)@[b as int]).update(b as int, old(v)@[a as int]),
{
    if a == b {
        proof {
            assert(v@ =~= v@.update(a as int, v@[b as int]).update(b as int, v@[a as int]));
        }
        return;
    }
    let lo = if a < b {
        a
    } else {
        b
    };
    let hi = if a < b {
        b
    } else {
        a
    };
    let ghost pre = v@;
    let (left, right) = v.as_mut_slice().split_at_mut(hi);
    core::mem::swap(&mut left[lo], &mut right[0]);
    proof {
        assert(v@ =~= pre.update(a as int, pre[b as int]).update(b as int, pre[a as int]));
    }
}

/// Puts `value` at `i` and returns what stood there.
pub(crate) fn replace_element<V>(v: &mut Vec<V>, i: usize, value: V) -> (r: V)
    requires
        i < old(v)@.len(),
    ensures
        final(v)@ == old(v)@.update(i as int, value),
        r == old(v)@[i as int],
{
    let mut x = value;
    core::mem::swap(&mut v[i], &mut x);
    x
}

/// A total map from the keys of the domain `T` to values `V`: one value for
/// every key.
#[derive(Debug, Hash)]
pub struct EnumMap<T: Enumoid, V> {
    data: Vec<V>,
    key: PhantomData<T>,
}

impl<T: Enumoid, V> View for EnumMap<T, V> {
    /// The value of each key, by the key's position.
    type V = Seq<V>;

    closed spec fn view(&self) -> Seq<V> {
        self.data@
    }
}

impl<T: Enumoid, V: Default> EnumMap<T, V> {
    /// Creates a new map populated with default values.
    pub fn new() -> (r: Self)
        ensures
            r.wf(),
            forall|i: int| 0 <= i < T::SIZE ==> call_ensures(V::default, (), #[trigger] r@[i]),
    {
        let mut data: Vec<V> = Vec::new();
        let mut i: usize = 0;
        while i < T::SIZE
            invariant
                i <= T::SIZE,
                data@.len() == i,
                forall|j: int| 0 <= j < i ==> call_ensures(V::default, (), #[trigger] data@[j]),
            decreases T::SIZE - i,
        {
            data.push(V::default());
            i = i + 1;
        }
        EnumMap { data, key: PhantomData }
    }
}

impl<T: Enumoid, V> EnumMap<T, V> {
    /// Every key has its slot.
    pub closed spec fn wf(&self) -> bool {
        self.data@.len() == T::SIZE
    }

    /// A well-formed map has one value for each key.
    pub proof fn lemma_view_len(&self)
        requires
            self.wf(),
        ensures
            self@.len() == T::SIZE,
    {
    }

    pub(crate) fn from_vec(data: Vec<V>) -> (r: Self)
        requires
            data@.len() == T::SIZE,
        ensures
            r.wf(),
            r@ == data@,
    {
        EnumMap { data, key: PhantomData }
    }

    /// Creates a new map populated by a callback function, called once for each
    /// key in ascending order.
    pub fn new_with<F: Fn(T) -> V>(f: F) -> (r: Self)
        requires
            forall|k: T| call_requires(f, (k,)),
        ensures
            r.wf(),
            forall|k: T|
                #[trigger] k.spec_word() < T::SIZE ==> call_ensures(f, (k,), r@[k.spec_word() as int]),
    {
        let mut data: Vec<V> = Vec::new();
        let mut i: usize = 0;
        while i < T::SIZE
            invariant
                i <= T::SIZE,
                data@.len() == i,
                forall|k: T| call_requires(f, (k,)),
                forall|k: T|
                    #[trigger] k.spec_word() < i ==> call_ensures(f, (k,), data@[k.spec_word() as int]),
            decreases T::SIZE - i,
        {
            let key = EnumIndex::<T>::from_usize_unchecked(i).into_value();
            data.push(f(key));
            i = i + 1;
        }
        EnumMap { data, key: PhantomData }
    }

    /// Returns a slice containing all the values in the map.
    pub fn as_slice(&self) -> (r: &[V])
        ensures
            r@ == self@,
    {
        self.data.as_slice()
    }

    /// Returns a mutable slice containing all the values in the map. Writes
    /// through it keep its length, so the map stays well formed.
    pub fn as_slice_mut(&mut self) -> (r: &mut [V])
        requires
            old(self).wf(),
        ensures
            r@ == old(self)@,
            final(self)@ == final(r)@,
            final(r)@.len() == r@.len() ==> final(self).wf(),
    {
        self.data.as_mut_slice()
    }

    /// Returns a reference to the value associated with a given index.
    pub fn get_by_index(&self, index: EnumIndex<T>) -> (r: &V)
        requires
            self.wf(),
        ensures
            *r == self@[index@ as int],
    {
        &self.data[index.into_usize()]
    }

    /// Returns a reference to the value associated with a given key.
    pub fn get(&self, key: T) -> (r: &V)
        requires
            self.wf(),
        ensures
            key.spec_word() < T::SIZE,
            *r == self@[key.spec_word() as int],
    {
        self.get_by_index(EnumIndex::from_value(key))
    }

    /// Returns a mutable reference to the value associated with a given index.
    pub fn get_by_index_mut(&mut self, index: EnumIndex<T>) -> (r: &mut V)
        requires
            old(self).wf(),
        ensures
            *r == old(self)@[index@ as int],
            final(self).wf(),
            final(self)@ == old(self)@.update(index@ as int, *final(r)),
    {
        let i = index.into_usize();
        &mut self.data[i]
    }

    /// Returns a mutable reference to the value associated with a given key.
    pub fn get_mut(&mut self, key: T) -> (r: &mut V)
        requires
            old(self).wf(),
        ensures
            key.spec_word() < T::SIZE,
            *r == old(self)@[key.spec_word() as int],
            final(self).wf(),
            final(self)@ == old(self)@.update(key.spec_word() as int, *final(r)),
    {
        self.get_by_index_mut(EnumIndex::from_value(key))
    }

    /// Sets the value associated with a given index and returns the old value.
    pub fn set_by_index(&mut self, index: EnumIndex<T>, value: V) -> (r: V)
        requires
            old(self).wf(),
        ensures
            final(self).wf(),
            final(self)@ == old(self)@.update(index@ as int, value),
            r == old(self)@[index@ as int],
    {
        replace_element(&mut self.data, index.into_usize(), value)
    }

    /// Sets the value associated with a given key and returns the old value.
    pub fn set(&mut self, key: T, value: V) -> (r: V)
        requires
            old(self).wf(),
        ensures
            key.spec_word() < T::SIZE,
            final(self).wf(),
            final(self)@ == old(self)@.update(key.spec_word() as int, value),
            r == old(self)@[key.spec_word() as int],
    {
        self.set_by_index(EnumIndex::from_value(key), value)
    }

    /// Swaps two elements in the map by index.
    pub fn swap_by_index(&mut self, a: EnumIndex<T>, b: EnumIndex<T>)
        requires
            old(self).wf(),
        ensures
            final(self).wf(),
            final(self)@ == old(self)@.update(a@ as int, old(self)@[b@ as int]).update(
                b@ as int,
                old(self)@[a@ as int],
            ),
    {
        swap_elements(&mut self.data, a.into_usize(), b.into_usize())
    }

    /// Swaps two elements in the map.
    pub fn swap(&mut self, a: T, b: T)
        requires
            old(self).wf(),
        ensures
            a.spec_word() < T::SIZE,
            b.spec_word() < T::SIZE,
            final(self).wf(),
            final(self)@ == old(self)@.update(a.spec_word() as int, old(self)@[b.spec_word() as int]).update(
                b.spec_word() as int,
                old(self)@[a.spec_word() as int],
            ),
    {
        self.swap_by_index(EnumIndex::from_value(a), EnumIndex::from_value(b))
    }

    /// Returns the keys with their values, in ascending order of keys.
    pub fn iter(&self) -> (r: Vec<(T, &V)>)
        requires
            self.wf(),
        ensures
            r@.len() == T::SIZE,
            forall|i: int|
                0 <= i < T::SIZE ==> (#[trigger] r@[i]).0.spec_word() == i && r@[i].1 == &self@[i],
    {
        let mut out: Vec<(T, &V)> = Vec::new();
        let mut i: usize = 0;
        while i < T::SIZE
            invariant
                i <= T::SIZE,
                self.wf(),
                out@.len() == i,
                forall|j: int|
                    0 <= j < i ==> (#[trigger] out@[j]).0.spec_word() == j && out@[j].1 == &self@[j],
            decreases T::SIZE - i,
        {
            let key = EnumIndex::<T>::from_usize_unchecked(i).into_value();
            out.push((key, &self.data[i]));
            i = i + 1;
        }
        out
    }
}

impl<T: Enumoid, V: Clone> Clone for EnumMap<T, V> {
    fn clone(&self) -> (r: Self)
        ensures
            r@.len() == self@.len(),
            forall|i: int| 0 <= i < self@.len() ==> cloned(self@[i], #[trigger] r@[i]),
            self.wf() ==> r.wf(),
    {
        let mut data: Vec<V> = Vec::new();
        let mut i: usize = 0;
        while i < self.data.len()
            invariant
                i <= self.data@.len(),
                data@.len() == i,
                forall|j: int| 0 <= j < i ==> cloned(self.data@[j], #[trigger] data@[j]),
            decreases self.data@.len() - i,
        {
            data.push(self.data[i].clone());
            i = i + 1;
        }
        EnumMap { data, key: PhantomData }
    }
}

impl<T: Enumoid, V: Default> Default for EnumMap<T, V> {
    fn default() -> (r: Self)
        ensures
            r.wf(),
            forall|i: int| 0 <= i < T::SIZE ==> call_ensures(V::default, (), #[trigger] r@[i]),
    {
        Self::new()
    }
}

impl<T: Enumoid, V> EnumMap<T, V> {
    /// The two hold equal values at every position, by `V`'s own equality.
    pub closed spec fn spec_eq(&self, other: &Self) -> bool where V: PartialEq {
        vstd::std_specs::cmp::PartialEqSpec::eq_spec(&self.data, &other.data)
    }
}

impl<T: Enumoid, V: PartialEq> PartialEq for EnumMap<T, V> {
    fn eq(&self, other: &Self) -> (r: bool) {
        self.data == other.data
    }
}

impl<T: Enumoid, V: PartialEq> vstd::std_specs::cmp::PartialEqSpecImpl for EnumMap<T, V> {
    open spec fn obeys_eq_spec() -> bool {
        <V as vstd::std_specs::cmp::PartialEqSpec>::obeys_eq_spec()
    }

    open spec fn eq_spec(&self, other: &Self) -> bool {
        self.spec_eq(other)
    }
}

impl<T: Enumoid, V: Eq> Eq for EnumMap<T, V> {
}

} // verus!
