use crate::word::RawSizeWord;
use vstd::prelude::*;

verus! {

/// A finite, totally ordered domain of keys: each key has a position (its word)
/// below `SIZE`, and each position below `SIZE` has exactly one key. `FIRST`
/// and `LAST` are the keys at the first and the last position.
///
/// A domain supplies `size_word`, `into_word` and `from_word_unchecked`; their
/// contracts are the bijection between keys and positions that every container
/// of this library relies on, and they alone say what `spec_word` is.
pub trait Enumoid: Sized + Copy {
    type Word: RawSizeWord;

    const SIZE: usize;

    const FIRST: Self;

    const LAST: Self;

    /// The position of a key.
    closed spec fn spec_word(self) -> nat {
        arbitrary()
    }

    /// `SIZE` as a word: the word type can count every key.
    fn size_word() -> (r: Self::Word)
        ensures
            r.spec_nat() == Self::SIZE,
    ;

    /// The position of this key.
    fn into_word(self) -> (r: Self::Word)
        ensures
            r.spec_nat() == self.spec_word(),
            self.spec_word() < Self::SIZE,
    ;

    /// The key at a position; it is the only key there.
    fn from_word_unchecked(value: Self::Word) -> (r: Self)
        requires
            value.spec_nat() < Self::SIZE,
        ensures
            r.spec_word() == value.spec_nat(),
            forall|k: Self| #[trigger] k.spec_word() == value.spec_nat() ==> k == r,
    ;

    /// The key at position `value`, if there is one.
    fn from_word(value: Self::Word) -> (r: Option<Self>)
        ensures
            r.is_some() == (value.spec_nat() < Self::SIZE),
            r.is_some() ==> r.unwrap().spec_word() == value.spec_nat(),
            r.is_some() ==> forall|k: Self| #[trigger] k.spec_word() == value.spec_nat() ==> k
                == r.unwrap(),
    {
        if value.as_() < Self::SIZE {
            Some(Self::from_word_unchecked(value))
        } else {
            None
        }
    }

    /// The key after this one, or `None` for the last key.
    fn next(self) -> (r: Option<Self>)
        ensures
            r.is_some() == (self.spec_word() + 1 < Self::SIZE),
            r.is_some() ==> r.unwrap().spec_word() == self.spec_word() + 1,
    {
        let size = Self::size_word();
        proof {
            size.lemma_bounds();
        }
        let w = self.into_word().as_();
        if w + 1 < size.as_() {
            Some(Self::from_word_unchecked(Self::Word::from_usize_unchecked(w + 1)))
        } else {
            None
        }
    }

    /// The key before this one, or `None` for the first key.
    fn prev(self) -> (r: Option<Self>)
        ensures
            r.is_some() == (self.spec_word() > 0),
            r.is_some() ==> r.unwrap().spec_word() == self.spec_word() - 1,
    {
        let w = self.into_word();
        if w.as_() > 0 {
            Some(Self::from_word_unchecked(w.dec()))
        } else {
            None
        }
    }

    /// The key after this one, or the first key after the last.
    fn next_wrapped(self) -> (r: Self)
        ensures
            r.spec_word() == (self.spec_word() + 1) % (Self::SIZE as nat),
    {
        let size = Self::size_word();
        proof {
            size.lemma_bounds();
        }
        let w = self.into_word().as_();
        if w + 1 < size.as_() {
            proof {
                vstd::arithmetic::div_mod::lemma_small_mod((w + 1) as nat, Self::SIZE as nat);
            }
            Self::from_word_unchecked(Self::Word::from_usize_unchecked(w + 1))
        } else {
            proof {
                vstd::arithmetic::div_mod::lemma_mod_self_0(Self::SIZE as int);
            }
            Self::from_word_unchecked(Self::Word::zero())
        }
    }

    /// The key before this one, or the last key before the first.
    fn prev_wrapped(self) -> (r: Self)
        ensures
            r.spec_word() == if self.spec_word() > 0 {
                self.spec_word() - 1
            } else {
                Self::SIZE - 1
            },
    {
        let w = self.into_word();
        if w.as_() > 0 {
            Self::from_word_unchecked(w.dec())
        } else {
            Self::from_word_unchecked(Self::size_word().dec())
        }
    }

    /// Every key, in ascending order.
    fn iter() -> (r: Vec<Self>)
        ensures
            r@.len() == Self::SIZE,
            forall|i: int| 0 <= i < r@.len() ==> (#[trigger] r@[i]).spec_word() == i,
    {
        let size = Self::size_word();
        proof {
            size.lemma_bounds();
        }
        let mut out: Vec<Self> = Vec::new();
        let mut i: usize = 0;
        while i < Self::SIZE
            invariant
                i <= Self::SIZE,
                Self::SIZE <= <Self::Word as RawSizeWord>::spec_max(),
                out@.len() == i,
                forall|j: int| 0 <= j < out@.len() ==> (#[trigger] out@[j]).spec_word() == j,
            decreases Self::SIZE - i,
        {
            out.push(Self::from_word_unchecked(Self::Word::from_usize_unchecked(i)));
            i = i + 1;
        }
        out
    }

    /// The keys up to and including `until`, in ascending order.
    fn iter_until(until: Self) -> (r: Vec<Self>)
        ensures
            r@.len() == until.spec_word() + 1,
            forall|i: int| 0 <= i < r@.len() ==> (#[trigger] r@[i]).spec_word() == i,
    {
        until.into_word();
        Self::iter_from_until(Self::from_word_unchecked(Self::Word::zero()), until)
    }

    /// The keys from `from` on, in ascending order.
    fn iter_from(from: Self) -> (r: Vec<Self>)
        ensures
            r@.len() == Self::SIZE - from.spec_word(),
            forall|i: int| 0 <= i < r@.len() ==> (#[trigger] r@[i]).spec_word() == from.spec_word() + i,
    {
        from.into_word();
        let last = Self::from_word_unchecked(Self::size_word().dec());
        Self::iter_from_until(from, last)
    }

    /// The keys from `from` up to and including `until`, in ascending order.
    fn iter_from_until(from: Self, until: Self) -> (r: Vec<Self>)
        ensures
            r@.len() == if from.spec_word() <= until.spec_word() {
                until.spec_word() + 1 - from.spec_word()
            } else {
                0
            },
            forall|i: int| 0 <= i < r@.len() ==> (#[trigger] r@[i]).spec_word() == from.spec_word() + i,
    {
        let size = Self::size_word();
        proof {
            size.lemma_bounds();
        }
        let lo = from.into_word().as_();
        let hi = until.into_word().as_() + 1;
        let mut out: Vec<Self> = Vec::new();
        if lo >= hi {
            return out;
        }
        let mut i: usize = lo;
        while i < hi
            invariant
                lo <= i,
                lo < hi ==> i <= hi,
                hi <= Self::SIZE,
                Self::SIZE <= <Self::Word as RawSizeWord>::spec_max(),
                out@.len() == i - lo,
                forall|j: int| 0 <= j < out@.len() ==> (#[trigger] out@[j]).spec_word() == lo + j,
            decreases hi - i,
        {
            out.push(Self::from_word_unchecked(Self::Word::from_usize_unchecked(i)));
            i = i + 1;
        }
        out
    }
}

/// A count of keys between 0 and the size of the domain, both included.
#[derive(Debug, PartialEq, Eq, PartialOrd, Ord, Copy)]
pub struct EnumSize<T: Enumoid> {
    word: T::Word,
}

impl<T: Enumoid> Clone for EnumSize<T> {
    fn clone(&self) -> (r: Self)
        ensures
            r == *self,
    {
        *self
    }
}

impl<T: Enumoid> View for EnumSize<T> {
    type V = nat;

    closed spec fn view(&self) -> nat {
        self.word.spec_nat()
    }
}

impl<T: Enumoid> EnumSize<T> {
    /// A count never exceeds the size of the domain.
    #[verifier::type_invariant]
    pub open spec fn inv(self) -> bool {
        self@ <= T::SIZE
    }

    pub(crate) fn from_word_unchecked(value: T::Word) -> (r: Self)
        requires
            value.spec_nat() <= T::SIZE,
        ensures
            r@ == value.spec_nat(),
    {
        EnumSize { word: value }
    }

    pub(crate) fn from_usize_unchecked(sz: usize) -> (r: Self)
        requires
            sz <= T::SIZE,
        ensures
            r@ == sz,
    {
        let size = T::size_word();
        proof {
            size.lemma_bounds();
        }
        EnumSize { word: T::Word::from_usize_unchecked(sz) }
    }

    /// No keys.
    pub fn empty() -> (r: Self)
        ensures
            r@ == 0,
    {
        EnumSize { word: T::Word::zero() }
    }

    /// All the keys of the domain.
    pub fn full() -> (r: Self)
        ensures
            r@ == T::SIZE,
    {
        EnumSize { word: T::size_word() }
    }

    /// The count of the keys up to and including `value`.
    pub fn from_last_value(value: T) -> (r: Self)
        ensures
            value.spec_word() < T::SIZE,
            r@ == value.spec_word() + 1,
    {
        let size = T::size_word();
        proof {
            size.lemma_bounds();
        }
        let w = value.into_word();
        EnumSize { word: w.inc() }
    }

    pub fn from_usize(sz: usize) -> (r: Option<Self>)
        ensures
            r.is_some() == (sz <= T::SIZE),
            r.is_some() ==> r.unwrap()@ == sz,
    {
        if sz <= T::SIZE {
            Some(Self::from_usize_unchecked(sz))
        } else {
            None
        }
    }

    pub fn into_word(&self) -> (r: T::Word)
        ensures
            r.spec_nat() == self@,
    {
        self.word
    }

    pub fn into_usize(&self) -> (r: usize)
        ensures
            r == self@,
            r <= T::SIZE,
    {
        proof {
            use_type_invariant(self);
        }
        self.word.as_()
    }

    /// The last key counted, or `None` for an empty count.
    pub fn into_last_value(&self) -> (r: Option<T>)
        ensures
            r.is_some() == (self@ > 0),
            r.is_some() ==> r.unwrap().spec_word() == self@ - 1,
    {
        proof {
            use_type_invariant(self);
        }
        if self.word.as_() > 0 {
            Some(T::from_word_unchecked(self.word.dec()))
        } else {
            None
        }
    }

    /// The index after `index`, or `None` where it reaches this count.
    pub fn next_index(&self, index: EnumIndex<T>) -> (r: Option<EnumIndex<T>>)
        requires
            index@ < self@,
        ensures
            r.is_some() == (index@ + 1 < self@),
            r.is_some() ==> r.unwrap()@ == index@ + 1,
    {
        proof {
            use_type_invariant(self);
            use_type_invariant(&index);
        }
        let size = T::size_word();
        proof {
            size.lemma_bounds();
        }
        let nw = index.into_word().inc();
        if nw.as_() < self.word.as_() {
            Some(EnumIndex::from_word_unchecked(nw))
        } else {
            None
        }
    }

    /// The key after `value`, or `None` where it reaches this count.
    pub fn next(&self, value: T) -> (r: Option<T>)
        requires
            value.spec_word() < self@,
        ensures
            value.spec_word() < T::SIZE,
            r.is_some() == (value.spec_word() + 1 < self@),
            r.is_some() ==> r.unwrap().spec_word() == value.spec_word() + 1,
    {
        match self.next_index(EnumIndex::from_value(value)) {
            Some(i) => Some(i.into_value()),
            None => None,
        }
    }

    /// The index before `index`, or `None` for the first index.
    pub fn prev_index(&self, index: EnumIndex<T>) -> (r: Option<EnumIndex<T>>)
        requires
            index@ < self@,
        ensures
            r.is_some() == (index@ > 0),
            r.is_some() ==> r.unwrap()@ == index@ - 1,
    {
        proof {
            use_type_invariant(&index);
        }
        let w = index.into_word();
        if w.as_() > 0 {
            Some(EnumIndex::from_word_unchecked(w.dec()))
        } else {
            None
        }
    }

    /// The key before `value`, or `None` for the first key.
    pub fn prev(&self, value: T) -> (r: Option<T>)
        requires
            value.spec_word() < self@,
        ensures
            value.spec_word() < T::SIZE,
            r.is_some() == (value.spec_word() > 0),
            r.is_some() ==> r.unwrap().spec_word() == value.spec_word() - 1,
    {
        match self.prev_index(EnumIndex::from_value(value)) {
            Some(i) => Some(i.into_value()),
            None => None,
        }
    }

    /// The index after `index`, or the first index where it reaches this count.
    pub fn next_index_wrapped(&self, index: EnumIndex<T>) -> (r: EnumIndex<T>)
        requires
            index@ < self@,
        ensures
            r@ == (index@ + 1) % self@,
    {
        proof {
            use_type_invariant(self);
            use_type_invariant(&index);
        }
        let size = T::size_word();
        proof {
            size.lemma_bounds();
        }
        let nw = index.into_word().inc();
        let q = if nw.as_() < self.word.as_() {
            proof {
                vstd::arithmetic::div_mod::lemma_small_mod(nw.spec_nat(), self@);
            }
            nw
        } else {
            proof {
                vstd::arithmetic::div_mod::lemma_mod_self_0(self@ as int);
            }
            T::Word::zero()
        };
        EnumIndex::from_word_unchecked(q)
    }

    /// The key after `value`, or the first key where it reaches this count.
    pub fn next_wrapped(&self, value: T) -> (r: T)
        requires
            value.spec_word() < self@,
        ensures
            value.spec_word() < T::SIZE,
            r.spec_word() < T::SIZE,
            r.spec_word() == (value.spec_word() + 1) % self@,
    {
        self.next_index_wrapped(EnumIndex::from_value(value)).into_value()
    }

    /// The index before `index`, or the last index counted for the first one.
    pub fn prev_index_wrapped(&self, index: EnumIndex<T>) -> (r: EnumIndex<T>)
        requires
            index@ < self@,
        ensures
            r@ == if index@ > 0 {
                index@ - 1
            } else {
                self@ - 1
            },
    {
        proof {
            use_type_invariant(self);
            use_type_invariant(&index);
        }
        let w = index.into_word();
        let q = if w.as_() > 0 {
            w
        } else {
            self.word
        };
        EnumIndex::from_word_unchecked(q.dec())
    }

    /// The key before `value`, or the last key counted for the first one.
    pub fn prev_wrapped(&self, value: T) -> (r: T)
        requires
            value.spec_word() < self@,
        ensures
            value.spec_word() < T::SIZE,
            r.spec_word() < T::SIZE,
            r.spec_word() == if value.spec_word() > 0 {
                value.spec_word() - 1
            } else {
                self@ - 1
            },
    {
        self.prev_index_wrapped(EnumIndex::from_value(value)).into_value()
    }

    pub fn contains_index(&self, index: EnumIndex<T>) -> (r: bool)
        ensures
            r == (index@ < self@),
    {
        index.into_usize() < self.word.as_()
    }

    pub fn contains(&self, value: T) -> (r: bool)
        ensures
            value.spec_word() < T::SIZE,
            r == (value.spec_word() < self@),
    {
        value.into_word().as_() < self.word.as_()
    }

    /// The keys counted, in ascending order.
    pub fn iter(&self) -> (r: Vec<T>)
        ensures
            r@.len() == self@,
            forall|i: int| 0 <= i < r@.len() ==> (#[trigger] r@[i]).spec_word() == i,
    {
        self.range(0, self.into_usize())
    }

    /// The keys counted up to and including `until`, in ascending order.
    pub fn iter_until(&self, until: T) -> (r: Vec<T>)
        ensures
            until.spec_word() < T::SIZE,
            r@.len() == if until.spec_word() + 1 < self@ {
                until.spec_word() + 1
            } else {
                self@
            },
            forall|i: int| 0 <= i < r@.len() ==> (#[trigger] r@[i]).spec_word() == i,
    {
        let w = until.into_word().as_();
        let n = self.into_usize();
        if w + 1 < n {
            self.range(0, w + 1)
        } else {
            self.range(0, n)
        }
    }

    /// The keys counted from `from` on, in ascending order.
    pub fn iter_from(&self, from: T) -> (r: Vec<T>)
        ensures
            from.spec_word() < T::SIZE,
            r@.len() == if from.spec_word() < self@ {
                self@ - from.spec_word()
            } else {
                0
            },
            forall|i: int| 0 <= i < r@.len() ==> (#[trigger] r@[i]).spec_word() == from.spec_word() + i,
    {
        self.range(from.into_word().as_(), self.into_usize())
    }

    /// The keys counted from `from` up to and including `until`, in ascending order.
    pub fn iter_from_until(&self, from: T, until: T) -> (r: Vec<T>)
        ensures
            from.spec_word() < T::SIZE,
            until.spec_word() < T::SIZE,
            ({
                let hi = if until.spec_word() + 1 < self@ {
                    until.spec_word() + 1
                } else {
                    self@
                };
                r@.len() == if from.spec_word() < hi {
                    hi - from.spec_word()
                } else {
                    0
                }
            }),
            forall|i: int| 0 <= i < r@.len() ==> (#[trigger] r@[i]).spec_word() == from.spec_word() + i,
    {
        let w = until.into_word().as_();
        let n = self.into_usize();
        let lo = from.into_word().as_();
        if w + 1 < n {
            self.range(lo, w + 1)
        } else {
            self.range(lo, n)
        }
    }

    /// The keys at positions `lo` up to `hi`, `hi` excluded.
    fn range(&self, lo: usize, hi: usize) -> (r: Vec<T>)
        requires
            hi <= self@,
        ensures
            r@.len() == if lo < hi {
                hi - lo
            } else {
                0
            },
            forall|i: int| 0 <= i < r@.len() ==> (#[trigger] r@[i]).spec_word() == lo + i,
    {
        proof {
            use_type_invariant(self);
        }
        let size = T::size_word();
        proof {
            size.lemma_bounds();
        }
        let mut out: Vec<T> = Vec::new();
        if lo >= hi {
            return out;
        }
        let mut i: usize = lo;
        while i < hi
            invariant
                lo <= i,
                lo < hi ==> i <= hi,
                hi <= T::SIZE,
                T::SIZE <= <T::Word as RawSizeWord>::spec_max(),
                out@.len() == i - lo,
                forall|j: int| 0 <= j < out@.len() ==> (#[trigger] out@[j]).spec_word() == lo + j,
            decreases hi - i,
        {
            out.push(T::from_word_unchecked(T::Word::from_usize_unchecked(i)));
            i = i + 1;
        }
        out
    }
}

impl<T: Enumoid> From<T> for EnumIndex<T> {
    fn from(value: T) -> (r: Self)
        ensures
            r@ == value.spec_word(),
    {
        Self::from_value(value)
    }
}

impl<T: Enumoid> vstd::std_specs::convert::FromSpecImpl<T> for EnumIndex<T> {
    /// The conversion is stated by the `ensures` of `from` alone.
    open spec fn obeys_from_spec() -> bool {
        false
    }

    open spec fn from_spec(v: T) -> Self {
        arbitrary()
    }
}

/// A position in the domain: a word below its size.
#[derive(Debug, PartialEq, Eq, PartialOrd, Ord, Copy)]
pub struct EnumIndex<T: Enumoid> {
    word: T::Word,
}

impl<T: Enumoid> Clone for EnumIndex<T> {
    fn clone(&self) -> (r: Self)
        ensures
            r == *self,
    {
        *self
    }
}

impl<T: Enumoid> View for EnumIndex<T> {
    type V = nat;

    closed spec fn view(&self) -> nat {
        self.word.spec_nat()
    }
}

impl<T: Enumoid> EnumIndex<T> {
    /// An index is always below the size of the domain.
    #[verifier::type_invariant]
    pub open spec fn inv(self) -> bool {
        self@ < T::SIZE
    }

    pub(crate) fn from_word_unchecked(value: T::Word) -> (r: Self)
        requires
            value.spec_nat() < T::SIZE,
        ensures
            r@ == value.spec_nat(),
    {
        EnumIndex { word: value }
    }

    pub(crate) fn from_usize_unchecked(sz: usize) -> (r: Self)
        requires
            sz < T::SIZE,
        ensures
            r@ == sz,
    {
        let size = T::size_word();
        proof {
            size.lemma_bounds();
        }
        EnumIndex { word: T::Word::from_usize_unchecked(sz) }
    }

    pub fn from_usize(sz: usize) -> (r: Option<Self>)
        ensures
            r.is_some() == (sz < T::SIZE),
            r.is_some() ==> r.unwrap()@ == sz,
    {
        if sz < T::SIZE {
            Some(Self::from_usize_unchecked(sz))
        } else {
            None
        }
    }

    pub fn from_value(value: T) -> (r: Self)
        ensures
            value.spec_word() < T::SIZE,
            r@ == value.spec_word(),
    {
        EnumIndex { word: value.into_word() }
    }

    /// The key at this index; it is the only key there.
    pub fn into_value(self) -> (r: T)
        ensures
            r.spec_word() < T::SIZE,
            r.spec_word() == self@,
            forall|k: T| #[trigger] k.spec_word() == self@ ==> k == r,
    {
        proof {
            use_type_invariant(&self);
        }
        T::from_word_unchecked(self.word)
    }

    pub fn into_word(self) -> (r: T::Word)
        ensures
            r.spec_nat() == self@,
            self@ < T::SIZE,
    {
        proof {
            use_type_invariant(&self);
        }
        self.word
    }

    pub fn into_usize(self) -> (r: usize)
        ensures
            r == self@,
            r < T::SIZE,
    {
        proof {
            use_type_invariant(&self);
        }
        self.word.as_()
    }

    /// The next index, or `None` for the last one.
    pub fn next(self) -> (r: Option<Self>)
        ensures
            r.is_some() == (self@ + 1 < T::SIZE),
            r.is_some() ==> r.unwrap()@ == self@ + 1,
    {
        proof {
            use_type_invariant(&self);
        }
        EnumSize::<T>::full().next_index(self)
    }

    /// The previous index, or `None` for the first one.
    pub fn prev(self) -> (r: Option<Self>)
        ensures
            r.is_some() == (self@ > 0),
            r.is_some() ==> r.unwrap()@ == self@ - 1,
    {
        proof {
            use_type_invariant(&self);
        }
        EnumSize::<T>::full().prev_index(self)
    }

    /// The next index, or the first one after the last.
    pub fn next_wrapped(self) -> (r: Self)
        ensures
            r@ == (self@ + 1) % (T::SIZE as nat),
    {
        proof {
            use_type_invariant(&self);
        }
        EnumSize::<T>::full().next_index_wrapped(self)
    }

    /// The previous index, or the last one before the first.
    pub fn prev_wrapped(self) -> (r: Self)
        ensures
            r@ == if self@ > 0 {
                self@ - 1
            } else {
                T::SIZE - 1
            },
    {
        proof {
            use_type_invariant(&self);
        }
        EnumSize::<T>::full().prev_index_wrapped(self)
    }
}

} // verus!
