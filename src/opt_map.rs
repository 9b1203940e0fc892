use crate::base::EnumIndex;
use crate::base::EnumSize;
use crate::base::Enumoid;
use crate::map::replace_element;
use crate::map::swap_elements;
use crate::map::EnumMap;
use crate::set::count_true;
use crate::set::lemma_member_is_set;
use crate::set::members;
use crate::set::EnumSet;
use crate::set::EnumSetIndexIter;
use crate::word::BitsetWordTrait;
use vstd::prelude::*;

verus! {

/// Which slots hold a value.
pub open spec fn present<V>(s: Seq<Option<V>>) -> Seq<bool> {
    Seq::new(s.len(), |i: int| s[i].is_some())
}

/// The slots that hold a value are exactly the first `n`.
pub open spec fn is_prefix<V>(s: Seq<Option<V>>, n: nat) -> bool {
    &&& n <= s.len()
    &&& forall|i: int| 0 <= i < s.len() ==> (#[trigger] s[i]).is_some() == (i < n)
}

/// The slots after writing each entry's value at its key, in order: a later
/// entry for a key replaces an earlier one.
pub open spec fn replay<T: Enumoid, V>(slots: Seq<Option<V>>, entries: Seq<(T, V)>) -> Seq<
    Option<V>,
>
    decreases entries.len(),
{
    if entries.len() == 0 {
        slots
    } else {
        replay(slots, entries.drop_last()).update(
            entries.last().0.spec_word() as int,
            Some(entries.last().1),
        )
    }
}

/// A map is a vector of at most one length: the count of its populated keys.
pub proof fn lemma_prefix_unique<V>(s: Seq<Option<V>>, n: nat, m: nat)
    requires
        is_prefix(s, n),
        is_prefix(s, m),
    ensures
        n == m,
{
    if n < m {
        assert(s[n as int].is_some());
    } else if m < n {
        assert(s[m as int].is_some());
    }
}

/// An empty map is a vector of length 0, a full one a vector of the full
/// length, and a map where a populated key follows a missing one is no vector.
pub proof fn lemma_is_vec_cases<V>(s: Seq<Option<V>>)
    ensures
        (forall|i: int| 0 <= i < s.len() ==> (#[trigger] s[i]).is_none()) ==> is_prefix(s, 0),
        (forall|i: int| 0 <= i < s.len() ==> (#[trigger] s[i]).is_some()) ==> is_prefix(s, s.len()),
        (exists|i: int, j: int| 0 <= i < j < s.len() && (#[trigger] s[i]).is_none() && (#[trigger] s[j]).is_some())
            ==> forall|n: nat| !is_prefix(s, n),
{
    if exists|i: int, j: int| 0 <= i < j < s.len() && (#[trigger] s[i]).is_none() && (#[trigger] s[j]).is_some() {
        let (i, j) = choose|i: int, j: int| 0 <= i < j < s.len() && (#[trigger] s[i]).is_none() && (#[trigger] s[j]).is_some();
        assert forall|n: nat| !is_prefix(s, n) by {
            if is_prefix(s, n) {
                assert(s[i].is_some() == (i < n));
                assert(s[j].is_some() == (j < n));
            }
        }
    }
}

/// A map with no populated key after a missing one is a vector.
pub proof fn lemma_no_gap_is_prefix<V>(s: Seq<Option<V>>)
    requires
        !exists|i: int, j: int|
            0 <= i < j < s.len() && (#[trigger] s[i]).is_none() && (#[trigger] s[j]).is_some(),
    ensures
        exists|n: nat| is_prefix(s, n),
    decreases s.len(),
{
    if s.len() == 0 {
        assert(is_prefix(s, 0));
    } else {
        let d = s.drop_last();
        assert forall|i: int, j: int|
            0 <= i < j < d.len() && (#[trigger] d[i]).is_none() implies !(#[trigger] d[j]).is_some() by {
            assert(d[i] == s[i] && d[j] == s[j]);
        }
        lemma_no_gap_is_prefix(d);
        let n = choose|n: nat| is_prefix(d, n);
        if s.last().is_some() {
            assert forall|i: int| 0 <= i < d.len() implies (#[trigger] d[i]).is_some() by {
                assert(s[i] == d[i]);
                if s[i].is_none() {
                    assert(s[s.len() - 1].is_some());
                }
            }
            if n < d.len() {
                assert(d[n as int].is_some());
            }
            assert(is_prefix(s, s.len()));
        } else {
            assert forall|i: int| 0 <= i < s.len() implies (#[trigger] s[i]).is_some() == (i < n) by {
                if i < d.len() {
                    assert(s[i] == d[i]);
                }
            }
            assert(is_prefix(s, n));
        }
    }
}

/// The length of a vector that a map is equals the number of its populated keys.
pub proof fn lemma_prefix_count<V>(s: Seq<Option<V>>, n: nat)
    requires
        is_prefix(s, n),
    ensures
        count_true(present(s)) == n,
    decreases s.len(),
{
    if s.len() > 0 {
        let d = s.drop_last();
        assert(present(s).drop_last() =~= present(d));
        if n == s.len() {
            assert(is_prefix(d, (n - 1) as nat));
            lemma_prefix_count(d, (n - 1) as nat);
        } else {
            assert(is_prefix(d, n));
            lemma_prefix_count(d, n);
        }
    }
}

/// A partial map from the keys of the domain `T` to values `V`. The keys that
/// hold a value are kept in an embedded set of words of type `BitsetWord`.
#[derive(Debug, Hash)]
pub struct EnumOptionMap<T: Enumoid, V, BitsetWord: BitsetWordTrait = u8> {
    valid: EnumSet<T, BitsetWord>,
    data: Vec<Option<V>>,
}

impl<T: Enumoid, V, W: BitsetWordTrait> View for EnumOptionMap<T, V, W> {
    /// The value of each key, or `None`, by the key's position.
    type V = Seq<Option<V>>;

    closed spec fn view(&self) -> Seq<Option<V>> {
        self.data@
    }
}

impl<T: Enumoid, V, W: BitsetWordTrait> EnumOptionMap<T, V, W> {
    /// Every key has its slot, and the set of keys records which slots hold a value.
    pub closed spec fn wf(&self) -> bool {
        &&& self.valid.wf()
        &&& self.data@.len() == T::SIZE
        &&& self.valid@.len() == T::SIZE
        &&& forall|i: int| 0 <= i < T::SIZE ==> #[trigger] self.valid@[i] == self.data@[i].is_some()
    }

    /// Creates a new empty map.
    pub fn new() -> (r: Self)
        ensures
            r.wf(),
            r@ == Seq::new(T::SIZE as nat, |i: int| None::<V>),
    {
        let valid = EnumSet::<T, W>::new();
        let mut data: Vec<Option<V>> = Vec::new();
        let mut i: usize = 0;
        while i < T::SIZE
            invariant
                i <= T::SIZE,
                data@ == Seq::new(i as nat, |j: int| None::<V>),
            decreases T::SIZE - i,
        {
            data.push(None);
            i = i + 1;
            proof {
                assert(data@ =~= Seq::new(i as nat, |j: int| None::<V>));
            }
        }
        let r = EnumOptionMap { valid, data };
        proof {
            r.valid.lemma_view_len();
            assert(r.valid@ =~= present(r.data@));
        }
        r
    }

    /// A well-formed map has one slot for each key.
    pub proof fn lemma_view_len(&self)
        requires
            self.wf(),
        ensures
            self@.len() == T::SIZE,
    {
    }

    /// Builds a map by inserting the entries in order, as a decoder does; a
    /// later entry for a key replaces an earlier one.
    pub fn from_entries(entries: Vec<(T, V)>) -> (r: Self)
        ensures
            r.wf(),
            r@ == replay(Seq::new(T::SIZE as nat, |i: int| None::<V>), entries@),
    {
        let ghost all = entries@;
        let ghost n = all.len();
        let ghost empty = Seq::new(T::SIZE as nat, |i: int| None::<V>);
        let mut rest = entries;
        let mut reversed: Vec<(T, V)> = Vec::new();
        while rest.len() > 0
            invariant
                n == all.len(),
                rest@ == all.subrange(0, rest@.len() as int),
                reversed@.len() == n - rest@.len(),
                forall|j: int| 0 <= j < reversed@.len() ==> #[trigger] reversed@[j] == all[n - 1 - j],
            decreases rest@.len(),
        {
            let entry = rest.pop().unwrap();
            reversed.push(entry);
            proof {
                assert(rest@ =~= all.subrange(0, rest@.len() as int));
            }
        }
        let mut map = Self::new();
        let ghost done: int = 0;
        while reversed.len() > 0
            invariant
                map.wf(),
                n == all.len(),
                0 <= done <= n,
                reversed@.len() == n - done,
                forall|j: int| 0 <= j < reversed@.len() ==> #[trigger] reversed@[j] == all[n - 1 - j],
                map@ == replay(empty, all.subrange(0, done)),
            decreases reversed@.len(),
        {
            let (key, value) = reversed.pop().unwrap();
            proof {
                assert(all.subrange(0, done + 1).drop_last() =~= all.subrange(0, done));
            }
            map.insert(key, value);
            proof {
                done = done + 1;
            }
        }
        proof {
            assert(all.subrange(0, n as int) =~= all);
        }
        map
    }

    /// Returns a reference to the value associated with a given index,
    /// or `None` if the index has no value in the map.
    pub fn get_by_index(&self, index: EnumIndex<T>) -> (r: Option<&V>)
        requires
            self.wf(),
        ensures
            r.is_some() == self@[index@ as int].is_some(),
            r.is_some() ==> *r.unwrap() == self@[index@ as int].unwrap(),
    {
        proof {
            use_type_invariant(&index);
        }
        if self.valid.contains_index(index) {
            self.data[index.into_usize()].as_ref()
        } else {
            None
        }
    }

    /// Returns a reference to the value associated with a given key,
    /// or `None` if the key has no value in the map.
    pub fn get(&self, key: T) -> (r: Option<&V>)
        requires
            self.wf(),
        ensures
            key.spec_word() < T::SIZE,
            r.is_some() == self@[key.spec_word() as int].is_some(),
            r.is_some() ==> *r.unwrap() == self@[key.spec_word() as int].unwrap(),
    {
        self.get_by_index(EnumIndex::from_value(key))
    }

    /// Returns a mutable reference to the value associated with a given index,
    /// or `None` if the index has no value in the map.
    pub fn get_by_index_mut(&mut self, index: EnumIndex<T>) -> (r: Option<&mut V>)
        requires
            old(self).wf(),
        ensures
            r.is_some() == old(self)@[index@ as int].is_some(),
            r.is_some() ==> *r.unwrap() == old(self)@[index@ as int].unwrap(),
            final(self).wf(),
            r.is_some() ==> final(self)@ == old(self)@.update(
                index@ as int,
                Some(*final(r.unwrap())),
            ),
            r.is_none() ==> final(self)@ == old(self)@,
    {
        proof {
            use_type_invariant(&index);
        }
        let i = index.into_usize();
        if self.valid.contains_index(index) {
            self.data[i].as_mut()
        } else {
            None
        }
    }

    /// Returns a mutable reference to the value associated with a given key,
    /// or `None` if the key has no value in the map.
    pub fn get_mut(&mut self, key: T) -> (r: Option<&mut V>)
        requires
            old(self).wf(),
        ensures
            key.spec_word() < T::SIZE,
            r.is_some() == old(self)@[key.spec_word() as int].is_some(),
            r.is_some() ==> *r.unwrap() == old(self)@[key.spec_word() as int].unwrap(),
            final(self).wf(),
            r.is_some() ==> final(self)@ == old(self)@.update(
                key.spec_word() as int,
                Some(*final(r.unwrap())),
            ),
            r.is_none() ==> final(self)@ == old(self)@,
    {
        self.get_by_index_mut(EnumIndex::from_value(key))
    }

    /// Sets the value associated with a given index and returns the old value if one was present.
    pub fn set_by_index(&mut self, index: EnumIndex<T>, value: Option<V>) -> (r: Option<V>)
        requires
            old(self).wf(),
        ensures
            final(self).wf(),
            final(self)@ == old(self)@.update(index@ as int, value),
            r == old(self)@[index@ as int],
    {
        proof {
            use_type_invariant(&index);
        }
        let i = index.into_usize();
        let flag = value.is_some();
        let old_value = replace_element(&mut self.data, i, value);
        self.valid.set_by_index(index, flag);
        proof {
        }
        old_value
    }

    /// Sets the value associated with a given key and returns the old value if one was present.
    pub fn set(&mut self, key: T, value: Option<V>) -> (r: Option<V>)
        requires
            old(self).wf(),
        ensures
            key.spec_word() < T::SIZE,
            final(self).wf(),
            final(self)@ == old(self)@.update(key.spec_word() as int, value),
            r == old(self)@[key.spec_word() as int],
    {
        self.set_by_index(EnumIndex::from_value(key), value)
    }

    /// Adds a value at the given index to the map and returns the old value if one was present.
    pub fn insert_by_index(&mut self, index: EnumIndex<T>, value: V) -> (r: Option<V>)
        requires
            old(self).wf(),
        ensures
            final(self).wf(),
            final(self)@ == old(self)@.update(index@ as int, Some(value)),
            r == old(self)@[index@ as int],
    {
        self.set_by_index(index, Some(value))
    }

    /// Adds a value with the given key to the map and returns the old value if one was present.
    pub fn insert(&mut self, key: T, value: V) -> (r: Option<V>)
        requires
            old(self).wf(),
        ensures
            key.spec_word() < T::SIZE,
            final(self).wf(),
            final(self)@ == old(self)@.update(key.spec_word() as int, Some(value)),
            r == old(self)@[key.spec_word() as int],
    {
        self.insert_by_index(EnumIndex::from_value(key), value)
    }

    /// Removes any value at the given index from the map and returns it if one was present.
    pub fn remove_by_index(&mut self, index: EnumIndex<T>) -> (r: Option<V>)
        requires
            old(self).wf(),
        ensures
            final(self).wf(),
            final(self)@ == old(self)@.update(index@ as int, None),
            r == old(self)@[index@ as int],
    {
        self.set_by_index(index, None)
    }

    /// Removes any value with the given key from the map and returns it if one was present.
    pub fn remove(&mut self, key: T) -> (r: Option<V>)
        requires
            old(self).wf(),
        ensures
            key.spec_word() < T::SIZE,
            final(self).wf(),
            final(self)@ == old(self)@.update(key.spec_word() as int, None),
            r == old(self)@[key.spec_word() as int],
    {
        self.remove_by_index(EnumIndex::from_value(key))
    }

    /// Swaps two elements in the map by index. Where only one of them holds a
    /// value, the value moves to the other key.
    pub fn swap_by_index(&mut self, a: EnumIndex<T>, b: EnumIndex<T>)
        requires
            old(self).wf(),
        ensures
            final(self).wf(),
            final(self)@ == old(self)@.update(a@ as int, old(self)@[b@ as int]).update(
                b@ as int,
                old(self)@[a@ as int],
            ),
    {
        proof {
            use_type_invariant(&a);
            use_type_invariant(&b);
        }
        let valid_a = self.valid.contains_index(a);
        let valid_b = self.valid.contains_index(b);
        if valid_a && valid_b {
            swap_elements(&mut self.data, a.into_usize(), b.into_usize());
        } else if valid_a || valid_b {
            self.valid.set_by_index(b, valid_a);
            self.valid.set_by_index(a, valid_b);
            swap_elements(&mut self.data, a.into_usize(), b.into_usize());
        }
        proof {
            assert(self.data@ =~= old(self)@.update(a@ as int, old(self)@[b@ as int]).update(
                b@ as int,
                old(self)@[a@ as int],
            ));
        }
    }

    /// Swaps two elements in the map. Where only one of them holds a value, the
    /// value moves to the other key.
    pub fn swap(&mut self, a: T, b: T)
        requires
            old(self).wf(),
        ensures
            a.spec_word() < T::SIZE,
            b.spec_word() < T::SIZE,
            final(self).wf(),
            final(self)@ == old(self)@.update(a.spec_word() as int, old(self)@[b.spec_word() as int]).update(
                b.spec_word() as int,
                old(self)@[a.spec_word() as int],
            ),
    {
        self.swap_by_index(EnumIndex::from_value(a), EnumIndex::from_value(b));
    }

    /// Clears all the elements from the map.
    pub fn clear(&mut self)
        requires
            old(self).wf(),
        ensures
            final(self).wf(),
            final(self)@ == Seq::new(T::SIZE as nat, |i: int| None::<V>),
    {
        let mut i: usize = 0;
        while i < T::SIZE
            invariant
                i <= T::SIZE,
                self.data@.len() == T::SIZE,
                self.valid == old(self).valid,
                old(self).wf(),
                forall|j: int| i <= j < T::SIZE ==> #[trigger] self.data@[j] == old(self)@[j],
                forall|j: int| 0 <= j < i ==> (#[trigger] self.data@[j]).is_none(),
            decreases T::SIZE - i,
        {
            if self.valid.contains_index(EnumIndex::from_usize_unchecked(i)) {
                replace_element(&mut self.data, i, None);
            }
            i = i + 1;
        }
        self.valid.clear();
        proof {
            assert(self.data@ =~= Seq::new(T::SIZE as nat, |i: int| None::<V>));
        }
    }

    /// Returns true if the map is empty.
    pub fn is_empty(&self) -> (r: bool)
        requires
            self.wf(),
        ensures
            r == forall|i: int| 0 <= i < T::SIZE ==> (#[trigger] self@[i]).is_none(),
    {
        let any = self.valid.any();
        proof {
            if !any {
                assert forall|i: int| 0 <= i < T::SIZE implies (#[trigger] self@[i]).is_none() by {
                    assert(!self.valid@[i]);
                }
            } else {
                let p = choose|p: int| 0 <= p < T::SIZE && #[trigger] self.valid@[p];
                assert(self@[p].is_some());
            }
        }
        !any
    }

    /// Returns true if the map is fully populated.
    pub fn is_full(&self) -> (r: bool)
        requires
            self.wf(),
        ensures
            r == forall|i: int| 0 <= i < T::SIZE ==> (#[trigger] self@[i]).is_some(),
    {
        let all = self.valid.all();
        proof {
            if all {
                assert forall|i: int| 0 <= i < T::SIZE implies (#[trigger] self@[i]).is_some() by {
                    assert(self.valid@[i]);
                }
            } else {
                assert(!(forall|i: int| 0 <= i < T::SIZE ==> #[trigger] self.valid@[i]));
                let p = choose|p: int| 0 <= p < T::SIZE && !#[trigger] self.valid@[p];
                assert(self@[p].is_none());
            }
        }
        all
    }

    /// Returns the size of a vector needed to represent the map, or `None` if
    /// the map is not representable by a vector: the populated keys must be
    /// the first ones of the domain, with no gap.
    pub fn is_vec(&self) -> (r: Option<EnumSize<T>>)
        requires
            self.wf(),
        ensures
            r.is_some() == exists|n: nat| is_prefix(self@, n),
            r.is_some() ==> is_prefix(self@, r.unwrap()@),
            r.is_none() <==> exists|i: int, j: int|
                0 <= i < j < T::SIZE && (#[trigger] self@[i]).is_none() && (#[trigger] self@[
                    j
                ]).is_some(),
            r.is_some() ==> r.unwrap()@ == count_true(present(self@)),
    {
        proof {
            lemma_is_vec_cases(self@);
            if !exists|i: int, j: int|
                0 <= i < j < T::SIZE && (#[trigger] self@[i]).is_none() && (#[trigger] self@[
                    j
                ]).is_some() {
                lemma_no_gap_is_prefix(self@);
            }
        }
        let mut size: usize = 0;
        let mut i: usize = 0;
        while i < T::SIZE
            invariant
                i <= T::SIZE,
                size <= i,
                self.wf(),
                forall|j: int| 0 <= j < i ==> (#[trigger] self@[j]).is_some() == (j < size),
            decreases T::SIZE - i,
        {
            if self.valid.contains_index(EnumIndex::from_usize_unchecked(i)) {
                if size < i {
                    proof {
                        assert forall|n: nat| !is_prefix(self@, n) by {
                            if is_prefix(self@, n) {
                                if n > i {
                                    assert(self@[size as int].is_some());
                                } else {
                                    assert(self@[i as int].is_none());
                                }
                            }
                        }
                    }
                    return None;
                }
                size = i + 1;
            }
            i = i + 1;
        }
        proof {
            assert(is_prefix(self@, size as nat));
            lemma_prefix_count(self@, size as nat);
        }
        Some(EnumSize::from_usize_unchecked(size))
    }

    /// Returns true if the map contains the index.
    pub fn contains_index(&self, index: EnumIndex<T>) -> (r: bool)
        requires
            self.wf(),
        ensures
            r == self@[index@ as int].is_some(),
    {
        proof {
            use_type_invariant(&index);
        }
        self.valid.contains_index(index)
    }

    /// Returns true if the map contains the key.
    pub fn contains(&self, value: T) -> (r: bool)
        requires
            self.wf(),
        ensures
            value.spec_word() < T::SIZE,
            r == self@[value.spec_word() as int].is_some(),
    {
        self.contains_index(EnumIndex::from_value(value))
    }

    /// Returns the number of populated keys in the map.
    pub fn count(&self) -> (r: usize)
        requires
            self.wf(),
        ensures
            r == count_true(present(self@)),
    {
        proof {
            assert(self.valid@ =~= present(self@));
        }
        self.valid.count()
    }

    /// Returns a reference to the set of populated keys.
    pub fn keys(&self) -> (r: &EnumSet<T, W>)
        requires
            self.wf(),
        ensures
            r.wf(),
            r@ == present(self@),
    {
        proof {
            assert(self.valid@ =~= present(self@));
        }
        &self.valid
    }

    /// Returns the populated keys with their values, in ascending order of keys.
    pub fn iter(&self) -> (r: Vec<(T, &V)>)
        requires
            self.wf(),
        ensures
            r@.len() == members(present(self@)).len(),
            forall|j: int|
                0 <= j < r@.len() ==> {
                    let p = #[trigger] members(present(self@))[j];
                    r@[j].0.spec_word() == p && r@[j].1 == &self@[p as int].unwrap()
                },
    {
        proof {
            assert(self.valid@ =~= present(self@));
        }
        let indices = self.valid.iter_index();
        let mut out: Vec<(T, &V)> = Vec::new();
        let mut j: usize = 0;
        while j < indices.len()
            invariant
                self.wf(),
                j <= indices@.len(),
                out@.len() == j,
                indices@.len() == members(self.valid@).len(),
                forall|k: int|
                    0 <= k < indices@.len() ==> (#[trigger] indices@[k])@ == members(self.valid@)[k],
                forall|k: int|
                    0 <= k < j ==> {
                        let p = #[trigger] members(self.valid@)[k];
                        out@[k].0.spec_word() == p && out@[k].1 == &self@[p as int].unwrap()
                    },
            decreases indices@.len() - j,
        {
            let index = indices[j];
            proof {
                assert(indices@[j as int]@ == members(self.valid@)[j as int]);
                lemma_member_is_set(self.valid@, 0, j as int);
            }
            let i = index.into_usize();
            let value = self.data[i].as_ref().unwrap();
            out.push((index.into_value(), value));
            j = j + 1;
        }
        out
    }
}

impl<T: Enumoid, V, W: BitsetWordTrait> EnumOptionMap<T, V, W> {
    /// Gives up the slots, one per key.
    pub(crate) fn into_slots(self) -> (r: Vec<Option<V>>)
        requires
            self.wf(),
        ensures
            r@ == self@,
            r@.len() == T::SIZE,
    {
        self.data
    }
}

impl<T: Enumoid, V, W: BitsetWordTrait> Default for EnumOptionMap<T, V, W> {
    fn default() -> (r: Self)
        ensures
            r.wf(),
            r@ == Seq::new(T::SIZE as nat, |i: int| None::<V>),
    {
        Self::new()
    }
}

impl<T: Enumoid, V> EnumMap<T, V> {
    /// Converts a fully populated partial map; fails on one with any key missing.
    pub fn try_from(from: EnumOptionMap<T, V>) -> (r: Result<Self, ()>)
        requires
            from.wf(),
        ensures
            r.is_ok() == forall|i: int| 0 <= i < T::SIZE ==> (#[trigger] from@[i]).is_some(),
            r.is_ok() ==> r.unwrap().wf() && forall|i: int|
                0 <= i < T::SIZE ==> #[trigger] r.unwrap()@[i] == from@[i].unwrap(),
    {
        if !from.is_full() {
            return Err(());
        }
        let ghost src = from@;
        let mut data = from.into_slots();
        let mut out: Vec<V> = Vec::new();
        let mut i: usize = 0;
        while i < T::SIZE
            invariant
                i <= T::SIZE,
                data@.len() == T::SIZE,
                forall|j: int| i <= j < T::SIZE ==> #[trigger] data@[j] == src[j],
                forall|j: int| 0 <= j < T::SIZE ==> (#[trigger] src[j]).is_some(),
                out@.len() == i,
                forall|j: int| 0 <= j < i ==> #[trigger] out@[j] == src[j].unwrap(),
            decreases T::SIZE - i,
        {
            let slot = replace_element(&mut data, i, None);
            out.push(slot.unwrap());
            i = i + 1;
        }
        Ok(EnumMap::from_vec(out))
    }
}

/// Walks over the populated keys of a partial map in ascending order, each
/// with its value.
pub struct EnumOptionMapIter<'a, T: Enumoid, V, BitsetWord: BitsetWordTrait> {
    iter: EnumSetIndexIter<'a, T, BitsetWord>,
    data: &'a [Option<V>],
}

impl<'a, T: Enumoid, V, W: BitsetWordTrait> View for EnumOptionMapIter<'a, T, V, W> {
    /// The positions of the populated keys still to come.
    type V = Seq<nat>;

    closed spec fn view(&self) -> Seq<nat> {
        self.iter@
    }
}

impl<'a, T: Enumoid, V, W: BitsetWordTrait> EnumOptionMapIter<'a, T, V, W> {
    /// The slots walked over, one per key.
    pub closed spec fn spec_slots(&self) -> Seq<Option<V>> {
        self.data@
    }

    pub closed spec fn wf(&self) -> bool {
        &&& self.iter.wf()
        &&& self.iter.spec_flags() == present(self.data@)
    }

    pub fn new(map: &'a EnumOptionMap<T, V, W>) -> (r: Self)
        requires
            map.wf(),
        ensures
            r.wf(),
            r@ == members(present(map@)),
            r.spec_slots() == map@,
    {
        proof {
            assert(map.valid@ =~= present(map@));
        }
        EnumOptionMapIter { iter: EnumSetIndexIter::new(&map.valid), data: map.data.as_slice() }
    }

    /// The next populated key with its value, or `None` when all have been seen.
    pub fn next(&mut self) -> (r: Option<(T, &'a V)>)
        requires
            old(self).wf(),
        ensures
            final(self).wf(),
            final(self).spec_slots() == old(self).spec_slots(),
            old(self)@.len() == 0 ==> r.is_none() && final(self)@ == old(self)@,
            old(self)@.len() > 0 ==> r.is_some() && r.unwrap().0.spec_word() == old(self)@[0]
                && Some(*r.unwrap().1) == old(self).spec_slots()[old(self)@[0] as int]
                && final(self)@ == old(self)@.drop_first(),
    {
        proof {
            self.iter.lemma_view_members();
        }
        match self.iter.next() {
            Some(index) => {
                let i = index.into_usize();
                let value = self.data[i].as_ref().unwrap();
                Some((index.into_value(), value))
            },
            None => None,
        }
    }

    /// How many populated keys are left in the word being scanned.
    pub closed spec fn spec_pending(&self) -> nat {
        self.iter.spec_pending()
    }

    /// How many positions of the domain lie past the word being scanned.
    pub closed spec fn spec_room(&self) -> nat {
        self.iter.spec_room()
    }

    /// Bounds on how many populated keys are still to come: at least those left in the
    /// word being scanned, at most those plus every position past that word.
    pub fn size_hint(&self) -> (r: (usize, Option<usize>))
        requires
            self.wf(),
        ensures
            r.0 == self.spec_pending(),
            r.1.is_some(),
            r.1.unwrap() == self.spec_pending() + self.spec_room(),
            r.0 <= self@.len() <= r.1.unwrap(),
    {
        self.iter.size_hint()
    }
}

impl<T: Enumoid, V, W: BitsetWordTrait> EnumOptionMap<T, V, W> {
    /// The two have the same keys populated, with equal values by `V`'s own
    /// equality.
    pub closed spec fn spec_eq(&self, other: &Self) -> bool where V: PartialEq {
        vstd::std_specs::cmp::PartialEqSpec::eq_spec(&self.data, &other.data)
    }
}

impl<T: Enumoid, V: PartialEq, W: BitsetWordTrait> PartialEq for EnumOptionMap<T, V, W> {
    fn eq(&self, other: &Self) -> (r: bool) {
        self.data == other.data
    }
}

impl<T: Enumoid, V: PartialEq, W: BitsetWordTrait> vstd::std_specs::cmp::PartialEqSpecImpl for EnumOptionMap<T, V, W> {
    open spec fn obeys_eq_spec() -> bool {
        <Option<V> as vstd::std_specs::cmp::PartialEqSpec>::obeys_eq_spec()
    }

    open spec fn eq_spec(&self, other: &Self) -> bool {
        self.spec_eq(other)
    }
}

impl<T: Enumoid, V: Eq, W: BitsetWordTrait> Eq for EnumOptionMap<T, V, W> {
}

} // verus!
