use crate::base::EnumIndex;
use crate::base::Enumoid;
use crate::word::bit_of;
use crate::word::fits;
use crate::word::lemma_bit_clear;
use crate::word::lemma_bit_set;
use crate::word::lemma_bit_zero;
use crate::word::lemma_differ_at_bit;
use crate::word::lemma_fits_bit;
use crate::word::lemma_fits_clear;
use crate::word::lemma_fits_set;
use crate::word::lemma_fits_wider;
use crate::word::lemma_low_mask;
use crate::word::lemma_nonzero_has_bit;
use crate::word::low_bits;
use crate::word::low_mask;
use crate::word::BitsetWordTrait;
use core::marker::PhantomData;
use vstd::prelude::*;
use vstd::std_specs::bits::axiom_u64_trailing_zeros;
use vstd::std_specs::bits::u64_trailing_zeros;

verus! {

/// How many words of `bits` bits hold `n` bits.
pub open spec fn word_count(n: nat, bits: nat) -> nat {
    if n % bits == 0 {
        n / bits
    } else {
        n / bits + 1
    }
}

/// How many flags of `s` are set.
pub open spec fn count_true(s: Seq<bool>) -> nat
    decreases s.len(),
{
    if s.len() == 0 {
        0
    } else {
        count_true(s.drop_last()) + if s.last() {
            1nat
        } else {
            0nat
        }
    }
}

/// The positions from `lo` on whose flags are set, in ascending order.
pub open spec fn members_from(s: Seq<bool>, lo: nat) -> Seq<nat>
    decreases s.len() - lo,
{
    if lo >= s.len() {
        Seq::empty()
    } else if s[lo as int] {
        seq![lo] + members_from(s, lo + 1)
    } else {
        members_from(s, lo + 1)
    }
}

/// The positions of the set flags of `s`, in ascending order.
pub open spec fn members(s: Seq<bool>) -> Seq<nat> {
    members_from(s, 0)
}

/// Every position that `members_from` lists is set, and at or after `lo`.
pub proof fn lemma_member_is_set(s: Seq<bool>, lo: nat, j: int)
    requires
        0 <= j < members_from(s, lo).len(),
    ensures
        lo <= members_from(s, lo)[j] < s.len(),
        s[members_from(s, lo)[j] as int],
    decreases s.len() - lo,
{
    if lo < s.len() {
        if s[lo as int] {
            if j > 0 {
                lemma_member_is_set(s, lo + 1, j - 1);
            }
        } else {
            lemma_member_is_set(s, lo + 1, j);
        }
    }
}

/// How many flags of `s` at positions `lo` up to `hi` are set.
pub open spec fn count_between(s: Seq<bool>, lo: nat, hi: nat) -> nat
    decreases hi - lo,
{
    if lo >= hi {
        0
    } else {
        (if lo < s.len() && s[lo as int] {
            1nat
        } else {
            0nat
        }) + count_between(s, lo + 1, hi)
    }
}

/// How many bits of `x` at positions `lo` up to `hi` are set.
pub open spec fn count_bits(x: u64, lo: nat, hi: nat) -> nat
    decreases hi - lo,
{
    if lo >= hi {
        0
    } else {
        (if bit_of(x, lo as u64) {
            1nat
        } else {
            0nat
        }) + count_bits(x, lo + 1, hi)
    }
}

/// The members from `lo` on are those before `m` and those from `m` on.
proof fn lemma_members_split(s: Seq<bool>, lo: nat, m: nat)
    requires
        lo <= m,
    ensures
        members_from(s, lo).len() == count_between(s, lo, m) + members_from(s, m).len(),
    decreases m - lo,
{
    if lo < m {
        lemma_members_split(s, lo + 1, m);
    }
}

/// There are no more members from `lo` on than positions.
proof fn lemma_members_len(s: Seq<bool>, lo: nat)
    ensures
        members_from(s, lo).len() <= if lo <= s.len() {
            s.len() - lo
        } else {
            0
        },
    decreases s.len() - lo,
{
    if lo < s.len() {
        lemma_members_len(s, lo + 1);
    }
}

/// There are as many members as set flags.
pub proof fn lemma_members_count(s: Seq<bool>)
    ensures
        members(s).len() == count_true(s),
{
    lemma_members_split(s, 0, s.len());
    lemma_count_true_between(s);
}

/// Passing over positions whose flags are clear lists the same members.
proof fn lemma_members_skip(s: Seq<bool>, lo: nat, hi: nat)
    requires
        lo <= hi,
        forall|q: int| lo <= q < hi && q < s.len() ==> !#[trigger] s[q],
    ensures
        members_from(s, lo) == members_from(s, hi),
    decreases hi - lo,
{
    if lo < hi {
        lemma_members_skip(s, lo + 1, hi);
    }
}

/// Setting one flag changes the count by one exactly when the flag changes.
pub proof fn lemma_count_update(s: Seq<bool>, k: int, flag: bool)
    requires
        0 <= k < s.len(),
    ensures
        count_true(s.update(k, flag)) + (if s[k] {
            1int
        } else {
            0int
        }) == count_true(s) + (if flag {
            1int
        } else {
            0int
        }),
    decreases s.len(),
{
    let u = s.update(k, flag);
    if k == s.len() - 1 {
        assert(u.drop_last() =~= s.drop_last());
    } else {
        assert(u.drop_last() =~= s.drop_last().update(k, flag));
        lemma_count_update(s.drop_last(), k, flag);
    }
}

/// The count is at most the length; it equals the length exactly when every flag
/// is set, and it is zero exactly when none is.
pub proof fn lemma_count_bounds(s: Seq<bool>)
    ensures
        count_true(s) <= s.len(),
        (count_true(s) == s.len()) == (forall|i: int| 0 <= i < s.len() ==> #[trigger] s[i]),
        (count_true(s) == 0) == (forall|i: int| 0 <= i < s.len() ==> !#[trigger] s[i]),
    decreases s.len(),
{
    if s.len() > 0 {
        let d = s.drop_last();
        lemma_count_bounds(d);
        let last = s.len() - 1;
        assert forall|i: int| 0 <= i < d.len() implies #[trigger] d[i] == s[i] by {}
        if count_true(s) == s.len() {
            assert(count_true(d) == d.len() && s[last]);
            assert forall|i: int| 0 <= i < s.len() implies #[trigger] s[i] by {
                if i < last {
                    assert(d[i]);
                }
            }
        }
        if forall|i: int| 0 <= i < s.len() ==> #[trigger] s[i] {
            assert(s[last]);
            assert forall|i: int| 0 <= i < d.len() implies #[trigger] d[i] by {
                assert(s[i]);
            }
        }
        if count_true(s) == 0 {
            assert(count_true(d) == 0 && !s[last]);
            assert forall|i: int| 0 <= i < s.len() implies !#[trigger] s[i] by {
                if i < last {
                    assert(!d[i]);
                }
            }
        }
        if forall|i: int| 0 <= i < s.len() ==> !#[trigger] s[i] {
            assert(!s[last]);
            assert forall|i: int| 0 <= i < d.len() implies !#[trigger] d[i] by {
                assert(!s[i]);
            }
        }
    }
}

/// After a key is added it is a member, and the count grows by one exactly when
/// the key was not a member before.
pub proof fn lemma_insert_count(s: Seq<bool>, k: int)
    requires
        0 <= k < s.len(),
    ensures
        s.update(k, true)[k],
        !s[k] ==> count_true(s.update(k, true)) == count_true(s) + 1,
        s[k] ==> count_true(s.update(k, true)) == count_true(s),
{
    lemma_count_update(s, k, true);
}

proof fn lemma_word_of_position(i: nat, n: nat, b: nat)
    requires
        i < n,
        b > 0,
    ensures
        i / b < word_count(n, b),
{
    let qi = i / b;
    let ri = i % b;
    let qn = n / b;
    let rn = n % b;
    vstd::arithmetic::div_mod::lemma_fundamental_div_mod(i as int, b as int);
    vstd::arithmetic::div_mod::lemma_fundamental_div_mod(n as int, b as int);
    assert(qi <= qn) by (nonlinear_arith)
        requires
            b * qi + ri < b * qn + rn,
            0 <= ri,
            rn < b,
            b > 0,
    ;
    if rn == 0 {
        assert(qi < qn) by (nonlinear_arith)
            requires
                b * qi + ri < b * qn + rn,
                0 <= ri,
                rn == 0,
                b > 0,
        ;
    }
}

proof fn lemma_position_in_words(p: nat, l: nat, b: nat)
    requires
        p < l * b,
        b > 0,
    ensures
        p / b < l,
{
    vstd::arithmetic::div_mod::lemma_fundamental_div_mod(p as int, b as int);
    let q = p / b;
    assert(q < l) by (nonlinear_arith)
        requires
            p < l * b,
            p == b * q + p % b,
            p % b >= 0,
            b > 0,
    ;
}

/// Position `q` lies in word `w`, at bit `q - w * b`.
proof fn lemma_in_word(q: nat, w: nat, b: nat)
    requires
        b > 0,
        w * b <= q < w * b + b,
    ensures
        q / b == w,
        q % b == q - w * b,
{
    vstd::arithmetic::div_mod::lemma_fundamental_div_mod_converse(
        q as int,
        b as int,
        w as int,
        q - w * b,
    );
}

proof fn lemma_count_bits_zero(x: u64, lo: nat, hi: nat)
    requires
        x == 0,
        hi <= 64,
    ensures
        count_bits(x, lo, hi) == 0,
    decreases hi - lo,
{
    if lo < hi {
        lemma_bit_zero(lo as u64);
        lemma_count_bits_zero(x, lo + 1, hi);
    }
}

proof fn lemma_count_bits_clear_prefix(x: u64, k: nat, hi: nat, cut: nat)
    requires
        k <= cut <= hi,
        hi <= 64,
        forall|j: u64| j < cut ==> !#[trigger] bit_of(x, j),
    ensures
        count_bits(x, 0, hi) == count_bits(x, k, hi),
    decreases k,
{
    if k > 0 {
        lemma_count_bits_clear_prefix(x, (k - 1) as nat, hi, cut);
        assert(!bit_of(x, (k - 1) as u64));
    }
}

proof fn lemma_low_mask_fits(n: u64)
    requires
        n <= 64,
    ensures
        fits(low_mask(n), n as nat),
{
    lemma_low_mask(n, 0);
}

/// How many of the low `n` bits of `x` are set.
fn popcount(x: u64, n: usize) -> (r: usize)
    requires
        n <= 64,
    ensures
        r == count_bits(x, 0, n as nat),
        r <= n,
{
    let mut count: usize = 0;
    let mut j: usize = n;
    while j > 0
        invariant
            j <= n,
            n <= 64,
            count == count_bits(x, j as nat, n as nat),
            count <= n - j,
        decreases j,
    {
        j = j - 1;
        if (x >> (j as u64)) & 1u64 == 1u64 {
            count = count + 1;
        }
    }
    count
}

/// Counting up to `hi` is counting up to `m` and then from `m` on.
proof fn lemma_count_between_split(s: Seq<bool>, lo: nat, m: nat, hi: nat)
    requires
        lo <= m <= hi,
    ensures
        count_between(s, lo, hi) == count_between(s, lo, m) + count_between(s, m, hi),
    decreases m - lo,
{
    if lo < m {
        lemma_count_between_split(s, lo + 1, m, hi);
    }
}

/// Past the end of `s` there is nothing to count.
proof fn lemma_count_between_past(s: Seq<bool>, lo: nat, hi: nat)
    requires
        s.len() <= lo,
    ensures
        count_between(s, lo, hi) == 0,
    decreases hi - lo,
{
    if lo < hi {
        lemma_count_between_past(s, lo + 1, hi);
    }
}

/// The count of the set flags, taken from the last one back or from the first
/// one on, is the same.
proof fn lemma_count_true_between(s: Seq<bool>)
    ensures
        count_true(s) == count_between(s, 0, s.len()),
    decreases s.len(),
{
    if s.len() > 0 {
        let d = s.drop_last();
        let n = (s.len() - 1) as nat;
        lemma_count_true_between(d);
        lemma_count_between_split(s, 0, n, s.len());
        assert forall|i: int| 0 <= i < d.len() implies #[trigger] d[i] == s[i] by {}
        lemma_count_between_prefix(s, d, 0, n);
        assert(count_between(s, n + 1, s.len()) == 0);
        assert(count_between(s, n, s.len()) == if s.last() {
            1nat
        } else {
            0nat
        });
    }
}

/// Below the length of `d`, counting in `s` or in `d` is the same where they agree.
proof fn lemma_count_between_prefix(s: Seq<bool>, d: Seq<bool>, lo: nat, hi: nat)
    requires
        hi <= d.len(),
        d.len() <= s.len(),
        forall|i: int| 0 <= i < d.len() ==> #[trigger] d[i] == s[i],
    ensures
        count_between(s, lo, hi) == count_between(d, lo, hi),
    decreases hi - lo,
{
    if lo < hi {
        lemma_count_between_prefix(s, d, lo + 1, hi);
    }
}

/// The words cover at least every position of the domain.
proof fn lemma_words_cover(n: nat, b: nat)
    requires
        b > 0,
    ensures
        n <= word_count(n, b) * b,
{
    vstd::arithmetic::div_mod::lemma_fundamental_div_mod(n as int, b as int);
    let q = n / b;
    let r = n % b;
    assert(n <= word_count(n, b) * b) by (nonlinear_arith)
        requires
            n == b * q + r,
            0 <= r < b,
            word_count(n, b) == if r == 0 {
                q
            } else {
                q + 1
            },
    ;
}

proof fn lemma_same_position(p: nat, i: nat, b: nat)
    requires
        b > 0,
        p / b == i / b,
        p % b == i % b,
    ensures
        p == i,
{
    vstd::arithmetic::div_mod::lemma_fundamental_div_mod(i as int, b as int);
    vstd::arithmetic::div_mod::lemma_fundamental_div_mod(p as int, b as int);
}

/// A set of keys of the domain `T`, one bit per key, packed into words of type
/// `BitsetWord`.
#[derive(Debug, Hash)]
pub struct EnumSet<T: Enumoid, BitsetWord: BitsetWordTrait = u8> {
    data: Vec<BitsetWord>,
    key: PhantomData<T>,
}

impl<T: Enumoid, W: BitsetWordTrait> View for EnumSet<T, W> {
    /// One flag per position of the domain: whether its key is a member.
    type V = Seq<bool>;

    closed spec fn view(&self) -> Seq<bool> {
        Seq::new(T::SIZE as nat, |p: int| self.spec_bit(p as nat))
    }
}

impl<T: Enumoid, W: BitsetWordTrait> EnumSet<T, W> {
    spec fn spec_bit(&self, p: nat) -> bool {
        bit_of(self.data@[(p / W::spec_bits()) as int].spec_value(), (p % W::spec_bits()) as u64)
    }

    /// The words cover the domain, and no bit past its last key is set.
    pub closed spec fn wf(&self) -> bool {
        &&& self.data@.len() == word_count(T::SIZE as nat, W::spec_bits())
        &&& forall|p: nat|
            T::SIZE <= p < self.data@.len() * W::spec_bits() ==> !#[trigger] self.spec_bit(p)
    }

    /// Creates a new empty set.
    pub fn new() -> (r: Self)
        ensures
            r.wf(),
            r@ == Seq::new(T::SIZE as nat, |p: int| false),
    {
        proof {
            W::lemma_bits();
        }
        let bits = W::bits();
        proof {
            if T::SIZE > 0 {
                vstd::arithmetic::div_mod::lemma_div_decreases(T::SIZE as int, bits as int);
            }
        }
        let n = if T::SIZE % bits == 0 {
            T::SIZE / bits
        } else {
            T::SIZE / bits + 1
        };
        let mut data: Vec<W> = Vec::new();
        while data.len() < n
            invariant
                data@.len() <= n,
                n == word_count(T::SIZE as nat, W::spec_bits()),
                forall|j: int| 0 <= j < data@.len() ==> (#[trigger] data@[j]).spec_value() == 0,
            decreases n - data@.len(),
        {
            data.push(W::zero());
        }
        let r = EnumSet { data, key: PhantomData };
        proof {
            assert forall|p: nat| p < r.data@.len() * W::spec_bits() implies !#[trigger] r.spec_bit(
                p,
            ) by {
                lemma_position_in_words(p, r.data@.len(), W::spec_bits());
                lemma_bit_zero((p % W::spec_bits()) as u64);
            }
            assert(r@ =~= Seq::new(T::SIZE as nat, |p: int| false)) by {
                assert forall|p: int| 0 <= p < T::SIZE implies !#[trigger] r.spec_bit(p as nat) by {
                    lemma_word_of_position(p as nat, T::SIZE as nat, W::spec_bits());
                    lemma_bit_zero((p as nat % W::spec_bits()) as u64);
                }
            }
        }
        r
    }

    /// Returns true if a specific member index is in the set.
    pub fn contains_index(&self, index: EnumIndex<T>) -> (r: bool)
        requires
            self.wf(),
        ensures
            r == self@[index@ as int],
    {
        proof {
            W::lemma_bits();
        }
        let i = index.into_usize();
        let bits = W::bits();
        proof {
            lemma_word_of_position(i as nat, T::SIZE as nat, W::spec_bits());
        }
        let w = self.data[i / bits].widen();
        (w >> ((i % bits) as u64)) & 1u64 == 1u64
    }

    /// Returns true if a specific member is in the set.
    pub fn contains(&self, key: T) -> (r: bool)
        requires
            self.wf(),
        ensures
            key.spec_word() < T::SIZE,
            r == self@[key.spec_word() as int],
    {
        self.contains_index(EnumIndex::from_value(key))
    }

    /// Sets whether a member index is in the set.
    pub fn set_by_index(&mut self, index: EnumIndex<T>, flag: bool)
        requires
            old(self).wf(),
        ensures
            final(self).wf(),
            final(self)@ == old(self)@.update(index@ as int, flag),
    {
        proof {
            W::lemma_bits();
        }
        let i = index.into_usize();
        let bits = W::bits();
        let j = i / bits;
        let b = (i % bits) as u64;
        proof {
            lemma_word_of_position(i as nat, T::SIZE as nat, W::spec_bits());
        }
        let old_word = self.data[j];
        let w = old_word.widen();
        let mask = 1u64 << b;
        let nw = if flag {
            w | mask
        } else {
            w & !mask
        };
        proof {
            old_word.lemma_word();
            if flag {
                lemma_fits_set(w, b, W::spec_bits() as u64);
            } else {
                lemma_fits_clear(w, b, W::spec_bits() as u64);
            }
        }
        let ghost pre = *self;
        let new_word = W::narrow(nw);
        let ghost post_data = pre.data@.update(j as int, new_word);
        self.data.set(j, new_word);
        proof {
            assert(self.data@ =~= post_data);
            assert forall|p: nat| p < pre.data@.len() * W::spec_bits() implies #[trigger] self.spec_bit(p)
                == if p == i {
                flag
            } else {
                pre.spec_bit(p)
            } by {
                lemma_position_in_words(p, pre.data@.len(), W::spec_bits());
                let pb = (p % W::spec_bits()) as u64;
                if p / W::spec_bits() == j {
                    if flag {
                        lemma_bit_set(w, b, pb);
                    } else {
                        lemma_bit_clear(w, b, pb);
                    }
                    if pb == b {
                        lemma_same_position(p, i as nat, W::spec_bits());
                    }
                }
            }
            assert forall|p: nat|
                T::SIZE <= p < self.data@.len() * W::spec_bits() implies !#[trigger] self.spec_bit(
                p,
            ) by {
                assert(pre.spec_bit(p) == false);
            }
            assert(self@ =~= pre@.update(i as int, flag)) by {
                assert forall|p: int| 0 <= p < T::SIZE implies #[trigger] self.spec_bit(p as nat) == (
                if p == i {
                    flag
                } else {
                    pre.spec_bit(p as nat)
                }) by {
                    lemma_word_of_position(p as nat, T::SIZE as nat, W::spec_bits());
                    let b = W::spec_bits() as int;
                    let q = p / b;
                    let l = self.data@.len() as int;
                    vstd::arithmetic::div_mod::lemma_fundamental_div_mod(p, b);
                    assert(p < l * b) by (nonlinear_arith)
                        requires
                            q < l,
                            p == b * q + p % b,
                            p % b < b,
                            b > 0,
                    ;
                }
            }
        }
    }

    /// Bit `j` of word `w` is the flag of position `w * bits + j`; past the
    /// last key it is clear.
    proof fn lemma_word_bit(&self, w: nat, j: nat)
        requires
            self.wf(),
            w < self.data@.len(),
            j < W::spec_bits(),
        ensures
            w * W::spec_bits() + j < self.data@.len() * W::spec_bits(),
            w * W::spec_bits() + j < T::SIZE ==> self@[(w * W::spec_bits() + j) as int] == bit_of(
                self.data@[w as int].spec_value(),
                j as u64,
            ),
            w * W::spec_bits() + j >= T::SIZE ==> !bit_of(self.data@[w as int].spec_value(), j as u64),
    {
        W::lemma_bits();
        let b = W::spec_bits();
        let q = w * b + j;
        lemma_in_word(q, w, b);
        assert(q < self.data@.len() * b) by (nonlinear_arith)
            requires
                q == w * b + j,
                j < b,
                w < self.data@.len(),
        ;
        if q >= T::SIZE {
            assert(!self.spec_bit(q));
        }
    }

    /// Creates a new set with all members set to true: every full word has all
    /// its bits set, and a last, partial word only the bits of keys.
    pub fn new_all() -> (r: Self)
        ensures
            r.wf(),
            r@ == Seq::new(T::SIZE as nat, |p: int| true),
    {
        proof {
            W::lemma_bits();
            lemma_words_cover(T::SIZE as nat, W::spec_bits());
        }
        let bits = W::bits();
        let ghost b = bits as nat;
        let full = T::SIZE / bits;
        let rem = T::SIZE % bits;
        proof {
            if T::SIZE > 0 {
                vstd::arithmetic::div_mod::lemma_div_decreases(T::SIZE as int, bits as int);
            }
            vstd::arithmetic::div_mod::lemma_fundamental_div_mod(T::SIZE as int, bits as int);
        }
        let n = if rem == 0 {
            full
        } else {
            full + 1
        };
        let all_set = low_bits(bits as u64);
        let partial = low_bits(rem as u64);
        proof {
            lemma_low_mask_fits(b as u64);
            lemma_low_mask_fits(rem as u64);
            lemma_fits_wider(partial, rem as u64, b as u64);
        }
        let mut data: Vec<W> = Vec::new();
        while data.len() < n
            invariant
                data@.len() <= n,
                n == word_count(T::SIZE as nat, W::spec_bits()),
                n == if rem == 0 {
                    full as int
                } else {
                    full + 1
                },
                full == T::SIZE / bits,
                bits == W::spec_bits(),
                fits(all_set, W::spec_bits()),
                fits(partial, W::spec_bits()),
                forall|k: int|
                    0 <= k < data@.len() ==> (#[trigger] data@[k]).spec_value() == if k < full {
                        all_set
                    } else {
                        partial
                    },
            decreases n - data@.len(),
        {
            if data.len() < full {
                data.push(W::narrow(all_set));
            } else {
                data.push(W::narrow(partial));
            }
        }
        let r = EnumSet { data, key: PhantomData };
        proof {
            let n_size = T::SIZE as int;
            assert(n_size == b * full + rem);
            assert forall|p: nat| p < r.data@.len() * b implies #[trigger] r.spec_bit(p) == (p
                < T::SIZE) by {
                lemma_position_in_words(p, r.data@.len(), b);
                let w = p / b;
                let j = p % b;
                vstd::arithmetic::div_mod::lemma_fundamental_div_mod(p as int, b as int);
                lemma_low_mask(b as u64, j as u64);
                lemma_low_mask(rem as u64, j as u64);
                if w < full {
                    assert(p < n_size) by (nonlinear_arith)
                        requires
                            p == b * w + j,
                            j < b,
                            w + 1 <= full,
                            n_size == b * full + rem,
                            rem >= 0,
                            b > 0,
                    ;
                } else {
                    assert(w == full);
                    assert(p == b * full + j);
                }
            }
            assert(r@ =~= Seq::new(T::SIZE as nat, |p: int| true)) by {
                assert forall|p: int| 0 <= p < T::SIZE implies #[trigger] r.spec_bit(p as nat) by {
                    assert(p < r.data@.len() * b);
                }
            }
        }
        r
    }

    /// Builds a set by adding the keys in order, as a decoder does.
    pub fn from_keys(keys: &Vec<T>) -> (r: Self)
        ensures
            r.wf(),
            forall|p: int|
                0 <= p < T::SIZE ==> #[trigger] r@[p] == exists|j: int|
                    0 <= j < keys@.len() && keys@[j].spec_word() == p,
    {
        let mut set = Self::new();
        let mut i: usize = 0;
        while i < keys.len()
            invariant
                set.wf(),
                i <= keys@.len(),
                forall|p: int|
                    0 <= p < T::SIZE ==> #[trigger] set@[p] == exists|j: int|
                        0 <= j < i && keys@[j].spec_word() == p,
            decreases keys@.len() - i,
        {
            let index = EnumIndex::from_value(keys[i]);
            proof {
                use_type_invariant(&index);
            }
            let ghost before = set@;
            set.insert_by_index(index);
            proof {
                assert forall|p: int| 0 <= p < T::SIZE implies #[trigger] set@[p] == exists|j: int|
                    0 <= j < i + 1 && keys@[j].spec_word() == p by {
                    if p == index@ {
                        assert(keys@[i as int].spec_word() == p);
                    } else {
                        assert(set@[p] == before[p]);
                        if exists|j: int| 0 <= j < i + 1 && keys@[j].spec_word() == p {
                            let j = choose|j: int| 0 <= j < i + 1 && keys@[j].spec_word() == p;
                            assert(j < i);
                        }
                    }
                }
            }
            i = i + 1;
        }
        set
    }

    /// Sets whether a member is in the set.
    pub fn set(&mut self, key: T, flag: bool)
        requires
            old(self).wf(),
        ensures
            key.spec_word() < T::SIZE,
            final(self).wf(),
            final(self)@ == old(self)@.update(key.spec_word() as int, flag),
    {
        self.set_by_index(EnumIndex::from_value(key), flag)
    }

    /// Adds a member index to the set and returns true if it was already present.
    pub fn insert_by_index(&mut self, index: EnumIndex<T>) -> (r: bool)
        requires
            old(self).wf(),
        ensures
            final(self).wf(),
            final(self)@ == old(self)@.update(index@ as int, true),
            r == old(self)@[index@ as int],
    {
        let has = self.contains_index(index);
        self.set_by_index(index, true);
        has
    }

    /// Adds a member to the set and returns true if it was already present.
    pub fn insert(&mut self, key: T) -> (r: bool)
        requires
            old(self).wf(),
        ensures
            key.spec_word() < T::SIZE,
            final(self).wf(),
            final(self)@ == old(self)@.update(key.spec_word() as int, true),
            r == old(self)@[key.spec_word() as int],
    {
        self.insert_by_index(EnumIndex::from_value(key))
    }

    /// Removes a member index from the set and returns true if it was present.
    pub fn remove_by_index(&mut self, index: EnumIndex<T>) -> (r: bool)
        requires
            old(self).wf(),
        ensures
            final(self).wf(),
            final(self)@ == old(self)@.update(index@ as int, false),
            r == old(self)@[index@ as int],
    {
        let has = self.contains_index(index);
        self.set_by_index(index, false);
        has
    }

    /// Removes a member from the set and returns true if it was present.
    pub fn remove(&mut self, key: T) -> (r: bool)
        requires
            old(self).wf(),
        ensures
            key.spec_word() < T::SIZE,
            final(self).wf(),
            final(self)@ == old(self)@.update(key.spec_word() as int, false),
            r == old(self)@[key.spec_word() as int],
    {
        self.remove_by_index(EnumIndex::from_value(key))
    }

    /// Clears all the members from the set.
    pub fn clear(&mut self)
        ensures
            final(self).wf(),
            final(self)@ == Seq::new(T::SIZE as nat, |p: int| false),
    {
        *self = Self::new();
    }

    /// Returns the number of members in the set.
    pub fn count(&self) -> (r: usize)
        requires
            self.wf(),
        ensures
            r == count_true(self@),
    {
        proof {
            W::lemma_bits();
            lemma_words_cover(T::SIZE as nat, W::spec_bits());
        }
        let bits = W::bits();
        let ghost b = bits as nat;
        let ghost s = self@;
        let len = self.data.len();
        let mut total: usize = 0;
        let mut i: usize = 0;
        while i < len
            invariant
                self.wf(),
                s == self@,
                i <= len,
                len == self.data@.len(),
                bits == W::spec_bits(),
                b == bits,
                8 <= bits <= 64,
                T::SIZE <= len * b,
                total == count_between(s, 0, (i * b) as nat),
                total <= T::SIZE,
            decreases len - i,
        {
            let n = popcount(self.data[i].widen(), bits);
            let ghost lo = (i * b) as nat;
            let ghost hi = (lo + b) as nat;
            let ghost size = T::SIZE as nat;
            proof {
                assert((i + 1) * b == i * b + b) by (nonlinear_arith);
                lemma_count_between_split(s, 0, lo, hi);
                lemma_word_count_bits(self, i as nat, 0);
                if hi > size {
                    if lo < size {
                        lemma_count_between_split(s, lo, size, hi);
                        lemma_count_between_past(s, size, hi);
                        lemma_count_between_split(s, 0, lo, size);
                        lemma_count_between_bound(s, 0, size);
                    } else {
                        lemma_count_between_past(s, lo, hi);
                    }
                } else {
                    lemma_count_between_bound(s, 0, hi);
                }
            }
            total = total + n;
            i = i + 1;
        }
        proof {
            let size = T::SIZE as nat;
            let end = (len * b) as nat;
            lemma_count_between_split(s, 0, size, end);
            lemma_count_between_past(s, size, end);
            lemma_count_true_between(s);
        }
        total
    }

    /// Returns true if there are any members in the set: some word is not zero.
    pub fn any(&self) -> (r: bool)
        requires
            self.wf(),
        ensures
            r == exists|p: int| 0 <= p < T::SIZE && #[trigger] self@[p],
    {
        proof {
            W::lemma_bits();
            lemma_words_cover(T::SIZE as nat, W::spec_bits());
        }
        let bits = W::bits();
        let ghost b = bits as nat;
        let len = self.data.len();
        let mut i: usize = 0;
        while i < len
            invariant
                self.wf(),
                i <= len,
                len == self.data@.len(),
                bits == W::spec_bits(),
                b == bits,
                8 <= bits <= 64,
                forall|p: int| 0 <= p < T::SIZE && p < i * b ==> !#[trigger] self@[p],
            decreases len - i,
        {
            let word = self.data[i].widen();
            if word != 0 {
                proof {
                    lemma_nonzero_has_bit(word);
                    let j = choose|j: u64| j < 64 && bit_of(word, j);
                    self.data@[i as int].lemma_word();
                    lemma_fits_bit(word, bits as u64, j);
                    self.lemma_word_bit(i as nat, j as nat);
                    let q = i * b + j;
                    assert(self@[q]);
                }
                return true;
            }
            proof {
                assert forall|p: int| 0 <= p < T::SIZE && p < (i + 1) * b implies !#[trigger] self@[p] by {
                    if p >= i * b {
                        assert(p < i * b + b) by (nonlinear_arith)
                            requires
                                p < (i + 1) * b,
                        ;
                        lemma_in_word(p as nat, i as nat, b);
                        self.lemma_word_bit(i as nat, (p - i * b) as nat);
                        lemma_bit_zero((p - i * b) as u64);
                    }
                }
            }
            i = i + 1;
        }
        false
    }

    /// Returns true if all possible members are in the set: every full word has
    /// all its bits set, and a last, partial word exactly the bits of keys.
    pub fn all(&self) -> (r: bool)
        requires
            self.wf(),
        ensures
            r == forall|p: int| 0 <= p < T::SIZE ==> #[trigger] self@[p],
    {
        proof {
            W::lemma_bits();
            lemma_words_cover(T::SIZE as nat, W::spec_bits());
        }
        let bits = W::bits();
        let ghost b = bits as nat;
        let full = T::SIZE / bits;
        let rem = T::SIZE % bits;
        proof {
            vstd::arithmetic::div_mod::lemma_fundamental_div_mod(T::SIZE as int, bits as int);
            lemma_low_mask_fits(b as u64);
            lemma_low_mask_fits(rem as u64);
        }
        let ghost n_size = T::SIZE as int;
        let all_set = low_bits(bits as u64);
        let mut i: usize = 0;
        while i < full
            invariant
                self.wf(),
                i <= full,
                full == T::SIZE / bits,
                rem == T::SIZE % bits,
                n_size == T::SIZE,
                n_size == b * full + rem,
                bits == W::spec_bits(),
                b == bits,
                8 <= bits <= 64,
                all_set == low_mask(b as u64),
                full <= self.data@.len(),
                forall|p: int| 0 <= p < i * b ==> #[trigger] self@[p],
            decreases full - i,
        {
            let word = self.data[i].widen();
            proof {
                assert((i + 1) * b <= n_size) by (nonlinear_arith)
                    requires
                        i < full,
                        n_size == b * full + rem,
                        rem >= 0,
                        b > 0,
                ;
                assert((i + 1) * b == i * b + b) by (nonlinear_arith);
            }
            if word != all_set {
                proof {
                    lemma_differ_at_bit(word, all_set);
                    let j = choose|j: u64| j < 64 && bit_of(word, j) != bit_of(all_set, j);
                    lemma_low_mask(b as u64, j);
                    self.data@[i as int].lemma_word();
                    if j >= b {
                        if bit_of(word, j) {
                            lemma_fits_bit(word, b as u64, j);
                        }
                        assert(false);
                    }
                    assert(!bit_of(word, j));
                    self.lemma_word_bit(i as nat, j as nat);
                    let q = i * b + j;
                    assert(q < n_size) by (nonlinear_arith)
                        requires
                            q == i * b + j,
                            j < b,
                            (i + 1) * b <= n_size,
                    ;
                    assert(!self@[q]);
                }
                return false;
            }
            proof {
                assert forall|p: int| 0 <= p < (i + 1) * b implies #[trigger] self@[p] by {
                    if p >= i * b {
                        lemma_in_word(p as nat, i as nat, b);
                        self.lemma_word_bit(i as nat, (p - i * b) as nat);
                        lemma_low_mask(b as u64, (p - i * b) as u64);
                    }
                }
            }
            i = i + 1;
        }
        proof {
            assert(full * b == b * full) by (nonlinear_arith);
            assert(rem < b);
            assert(i == full);
        }
        if rem != 0 {
            let word = self.data[full].widen();
            let partial = low_bits(rem as u64);
            if word != partial {
                proof {
                    lemma_differ_at_bit(word, partial);
                    let j = choose|j: u64| j < 64 && bit_of(word, j) != bit_of(partial, j);
                    lemma_low_mask(rem as u64, j);
                    self.data@[full as int].lemma_word();
                    if j >= b {
                        if bit_of(word, j) {
                            lemma_fits_bit(word, b as u64, j);
                        }
                        assert(false);
                    }
                    self.lemma_word_bit(full as nat, j as nat);
                    let q = full * b + j;
                    if j >= rem {
                        assert(q >= n_size);
                        assert(false);
                    }
                    assert(!bit_of(word, j));
                    assert(!self@[q]);
                }
                return false;
            }
            proof {
                assert forall|p: int| 0 <= p < T::SIZE implies #[trigger] self@[p] by {
                    if p >= full * b {
                        assert(p < full * b + b);
                        lemma_in_word(p as nat, full as nat, b);
                        self.lemma_word_bit(full as nat, (p - full * b) as nat);
                        lemma_low_mask(rem as u64, (p - full * b) as u64);
                    }
                }
            }
        } else {
            proof {
                assert forall|p: int| 0 <= p < T::SIZE implies #[trigger] self@[p] by {
                    assert(p < full * b);
                }
            }
        }
        true
    }

    /// Returns the indices of the members of the set, in ascending order.
    pub fn iter_index(&self) -> (r: Vec<EnumIndex<T>>)
        requires
            self.wf(),
        ensures
            r@.len() == members(self@).len(),
            r@.len() == count_true(self@),
            forall|j: int| 0 <= j < r@.len() ==> (#[trigger] r@[j])@ == members(self@)[j],
    {
        proof {
            lemma_members_count(self@);
        }
        let ghost all = members(self@);
        let mut it = EnumSetIndexIter::new(self);
        let mut out: Vec<EnumIndex<T>> = Vec::new();
        proof {
            assert(it@ =~= all.subrange(0, all.len() as int));
        }
        loop
            invariant
                it.wf(),
                all == members(self@),
                out@.len() + it@.len() == all.len(),
                forall|j: int| 0 <= j < out@.len() ==> (#[trigger] out@[j])@ == all[j],
                it@ == all.subrange(out@.len() as int, all.len() as int),
            decreases it@.len(),
        {
            let ghost before = it@;
            match it.next() {
                Some(index) => {
                    out.push(index);
                    proof {
                        assert(it@ =~= all.subrange(out@.len() as int, all.len() as int));
                    }
                },
                None => {
                    proof {
                        assert(before.len() == 0);
                        lemma_members_count(self@);
                    }
                    return out;
                },
            }
        }
    }

    /// Returns the members of the set, in ascending order.
    pub fn iter(&self) -> (r: Vec<T>)
        requires
            self.wf(),
        ensures
            r@.len() == members(self@).len(),
            r@.len() == count_true(self@),
            forall|j: int|
                0 <= j < r@.len() ==> (#[trigger] r@[j]).spec_word() == members(self@)[j],
    {
        proof {
            lemma_members_count(self@);
        }
        let indices = self.iter_index();
        let mut out: Vec<T> = Vec::new();
        let mut j: usize = 0;
        while j < indices.len()
            invariant
                j <= indices@.len(),
                out@.len() == j,
                forall|k: int| 0 <= k < j ==> (#[trigger] out@[k]).spec_word() == indices@[k]@,
            decreases indices@.len() - j,
        {
            out.push(indices[j].into_value());
            j = j + 1;
        }
        proof {
            assert forall|k: int| 0 <= k < out@.len() implies (#[trigger] out@[k]).spec_word() == members(
                self@,
            )[k] by {
                assert(indices@[k]@ == members(self@)[k]);
            }
        }
        out
    }
}

impl<T: Enumoid, W: BitsetWordTrait> Clone for EnumSet<T, W> {
    fn clone(&self) -> (r: Self)
        ensures
            r@ == self@,
            self.wf() ==> r.wf(),
    {
        let mut data: Vec<W> = Vec::new();
        let mut j: usize = 0;
        while j < self.data.len()
            invariant
                j <= self.data@.len(),
                data@ == self.data@.subrange(0, j as int),
            decreases self.data@.len() - j,
        {
            data.push(self.data[j]);
            j = j + 1;
            proof {
                assert(data@ =~= self.data@.subrange(0, j as int));
            }
        }
        proof {
            assert(data@ =~= self.data@);
        }
        let r = EnumSet { data, key: PhantomData };
        proof {
            assert forall|p: nat| #[trigger] r.spec_bit(p) == self.spec_bit(p) by {}
            assert(r@ =~= self@);
        }
        r
    }
}

impl<T: Enumoid, W: BitsetWordTrait> EnumSet<T, W> {
    /// One flag for each key of the domain.
    pub proof fn lemma_view_len(&self)
        ensures
            self@.len() == T::SIZE,
    {
    }
}

impl<T: Enumoid, W: BitsetWordTrait> EnumSet<T, W> {
    /// The two sets hold the same words.
    pub closed spec fn spec_same_words(&self, other: &Self) -> bool {
        &&& self.data@.len() == other.data@.len()
        &&& forall|i: int|
            0 <= i < self.data@.len() ==> (#[trigger] self.data@[i]).spec_value()
                == other.data@[i].spec_value()
    }

    /// Two sets hold the same words exactly when they have the same members.
    pub proof fn lemma_same_words(&self, other: &Self)
        requires
            self.wf(),
            other.wf(),
        ensures
            self.spec_same_words(other) <==> self@ == other@,
    {
        W::lemma_bits();
        let b = W::spec_bits();
        if self.spec_same_words(other) {
            assert forall|p: int| 0 <= p < T::SIZE implies #[trigger] self@[p] == other@[p] by {
                lemma_word_of_position(p as nat, T::SIZE as nat, b);
            }
            assert(self@ =~= other@);
        }
        if self@ == other@ {
            assert forall|i: int| 0 <= i < self.data@.len() implies (#[trigger] self.data@[i]).spec_value()
                == other.data@[i].spec_value() by {
                let x = self.data@[i].spec_value();
                let y = other.data@[i].spec_value();
                if x != y {
                    lemma_differ_at_bit(x, y);
                    let j = choose|j: u64| j < 64 && bit_of(x, j) != bit_of(y, j);
                    self.data@[i].lemma_word();
                    other.data@[i].lemma_word();
                    if j >= b {
                        if bit_of(x, j) {
                            lemma_fits_bit(x, b as u64, j);
                        }
                        if bit_of(y, j) {
                            lemma_fits_bit(y, b as u64, j);
                        }
                        assert(false);
                    }
                    self.lemma_word_bit(i as nat, j as nat);
                    other.lemma_word_bit(i as nat, j as nat);
                    let q = i * b + j;
                    if q < T::SIZE {
                        assert(self@[q] != other@[q]);
                    }
                    assert(false);
                }
            }
        }
    }
}

impl<T: Enumoid, W: BitsetWordTrait> PartialEq for EnumSet<T, W> {
    fn eq(&self, other: &Self) -> (r: bool) {
        if self.data.len() != other.data.len() {
            return false;
        }
        let mut i: usize = 0;
        while i < self.data.len()
            invariant
                i <= self.data@.len(),
                self.data@.len() == other.data@.len(),
                forall|k: int|
                    0 <= k < i ==> (#[trigger] self.data@[k]).spec_value()
                        == other.data@[k].spec_value(),
            decreases self.data@.len() - i,
        {
            if self.data[i].widen() != other.data[i].widen() {
                return false;
            }
            i = i + 1;
        }
        true
    }
}

impl<T: Enumoid, W: BitsetWordTrait> vstd::std_specs::cmp::PartialEqSpecImpl for EnumSet<T, W> {
    open spec fn obeys_eq_spec() -> bool {
        true
    }

    open spec fn eq_spec(&self, other: &Self) -> bool {
        self.spec_same_words(other)
    }
}

impl<T: Enumoid, W: BitsetWordTrait> Eq for EnumSet<T, W> {
}

impl<T: Enumoid, W: BitsetWordTrait> Default for EnumSet<T, W> {
    fn default() -> (r: Self)
        ensures
            r.wf(),
            r@ == Seq::new(T::SIZE as nat, |p: int| false),
    {
        Self::new()
    }
}

/// Walks over the indices of the members of a set in ascending order, one word
/// of the set at a time.
pub struct EnumSetIndexIter<'a, T: Enumoid, BitsetWord: BitsetWordTrait> {
    flags: &'a EnumSet<T, BitsetWord>,
    current: u64,
    word_index: usize,
    cut: Ghost<nat>,
}

impl<'a, T: Enumoid, W: BitsetWordTrait> View for EnumSetIndexIter<'a, T, W> {
    /// The positions of the members still to come.
    type V = Seq<nat>;

    closed spec fn view(&self) -> Seq<nat> {
        members_from(self.flags@, self.spec_pos())
    }
}

impl<'a, T: Enumoid, W: BitsetWordTrait> EnumSetIndexIter<'a, T, W> {
    /// The flags of the set walked over.
    pub closed spec fn spec_flags(&self) -> Seq<bool> {
        self.flags@
    }

    /// Every position still to come is that of a member.
    pub proof fn lemma_view_members(&self)
        requires
            self.wf(),
        ensures
            forall|j: int|
                0 <= j < self@.len() ==> #[trigger] self@[j] < self.spec_flags().len()
                    && self.spec_flags()[self@[j] as int],
    {
        assert forall|j: int| 0 <= j < self@.len() implies #[trigger] self@[j] < self.spec_flags().len()
            && self.spec_flags()[self@[j] as int] by {
            lemma_member_is_set(self.flags@, self.spec_pos(), j);
        }
    }

    /// The first position not passed yet.
    spec fn spec_pos(&self) -> nat {
        (self.word_index * W::spec_bits() + self.cut@) as nat
    }

    /// `current` holds the bits of the word at `word_index` that are not
    /// passed yet; past the last word it is empty.
    pub closed spec fn wf(&self) -> bool {
        &&& self.flags.wf()
        &&& self.word_index <= self.flags.data@.len()
        &&& self.word_index < self.flags.data@.len() ==> {
            &&& self.cut@ <= W::spec_bits()
            &&& forall|j: u64|
                j < 64 ==> #[trigger] bit_of(self.current, j) == (j >= self.cut@ && bit_of(
                    self.flags.data@[self.word_index as int].spec_value(),
                    j,
                ))
        }
        &&& self.word_index == self.flags.data@.len() ==> self.current == 0 && self.cut@ == 0
    }

    pub fn new(flags: &'a EnumSet<T, W>) -> (r: Self)
        requires
            flags.wf(),
        ensures
            r.wf(),
            r@ == members(flags@),
            r.spec_flags() == flags@,
    {
        let current = if flags.data.len() > 0 {
            flags.data[0].widen()
        } else {
            0
        };
        let r = EnumSetIndexIter { flags, current, word_index: 0, cut: Ghost(0) };
        proof {
            assert(r.spec_pos() == 0);
        }
        r
    }

    /// How many members are left in the word being scanned.
    pub closed spec fn spec_pending(&self) -> nat {
        count_bits(self.current, 0, W::spec_bits())
    }

    /// How many positions of the domain lie past the word being scanned.
    pub closed spec fn spec_room(&self) -> nat {
        let end = (self.word_index + 1) * W::spec_bits();
        if end < T::SIZE {
            (T::SIZE - end) as nat
        } else {
            0
        }
    }

    /// Bounds on how many members are still to come: at least those left in the
    /// word being scanned, at most those plus every position past that word.
    pub fn size_hint(&self) -> (r: (usize, Option<usize>))
        requires
            self.wf(),
        ensures
            r.0 == self.spec_pending(),
            r.1.is_some(),
            r.1.unwrap() == self.spec_pending() + self.spec_room(),
            r.0 <= self@.len() <= self.spec_pending() + self.spec_room(),
    {
        proof {
            W::lemma_bits();
            lemma_words_cover(T::SIZE as nat, W::spec_bits());
        }
        let bits = W::bits();
        let ghost s = self.flags@;
        let ghost wi = self.word_index as nat;
        let ghost b = bits as nat;
        let ghost pos = self.spec_pos();
        let ghost end = (wi + 1) * b;
        let count = popcount(self.current, bits);
        proof {
            assert(end == wi * b + b) by (nonlinear_arith)
                requires
                    end == (wi + 1) * b,
            ;
            if self.word_index < self.flags.data@.len() {
                let word = self.flags.data@[wi as int].spec_value();
                let cut = self.cut@;
                self.flags.data@[wi as int].lemma_word();
                // Bits below the cut are clear.
                lemma_count_bits_clear_prefix(self.current, cut, b, cut);
                // From the cut on, the bits are the flags of their positions.
                lemma_count_bits_positions(self, s, wi, b, cut, cut);
                lemma_members_split(s, pos, end);
                lemma_members_len(s, end);
            } else {
                assert(pos >= T::SIZE);
                assert(members_from(s, pos) =~= Seq::<nat>::empty());
                lemma_count_bits_zero(self.current, 0, b);
            }
        }
        proof {
            let n = T::SIZE as int;
            let bi = b as int;
            vstd::arithmetic::div_mod::lemma_fundamental_div_mod(n, bi);
            let q = n / bi;
            let rem = n % bi;
            assert(q + 2 <= usize::MAX) by (nonlinear_arith)
                requires
                    n == bi * q + rem,
                    rem >= 0,
                    bi >= 8,
                    q >= 0,
                    n <= usize::MAX,
            ;
        }
        let next_word = self.word_index + 1;
        let room = if next_word > T::SIZE / bits {
            proof {
                let n = T::SIZE as int;
                let bi = b as int;
                vstd::arithmetic::div_mod::lemma_fundamental_div_mod(n, bi);
                let q = n / bi;
                let rem = n % bi;
                assert(end > n) by (nonlinear_arith)
                    requires
                        end == (wi + 1) * bi,
                        wi + 1 > q,
                        n == bi * q + rem,
                        rem < bi,
                ;
            }
            0
        } else {
            proof {
                let n = T::SIZE as int;
                let bi = b as int;
                vstd::arithmetic::div_mod::lemma_fundamental_div_mod(n, bi);
                let q = n / bi;
                let rem = n % bi;
                assert(end <= n) by (nonlinear_arith)
                    requires
                        end == (wi + 1) * bi,
                        wi + 1 <= q,
                        n == bi * q + rem,
                        rem >= 0,
                        bi > 0,
                ;
            }
            T::SIZE - next_word * bits
        };
        (count, Some(count + room))
    }

    /// The index of the next member, or `None` when all have been seen.
    pub fn next(&mut self) -> (r: Option<EnumIndex<T>>)
        requires
            old(self).wf(),
        ensures
            final(self).wf(),
            final(self).spec_flags() == old(self).spec_flags(),
            old(self)@.len() == 0 ==> r.is_none() && final(self)@ == old(self)@,
            old(self)@.len() > 0 ==> r.is_some() && r.unwrap()@ == old(self)@[0] && final(self)@
                == old(self)@.drop_first(),
    {
        proof {
            W::lemma_bits();
            lemma_words_cover(T::SIZE as nat, W::spec_bits());
        }
        let ghost s = self.flags@;
        let ghost start = self@;
        let bits = W::bits();
        let len = self.flags.data.len();
        while self.current == 0
            invariant
                self.wf(),
                self@ == start,
                start == old(self)@,
                self.flags@ == s,
                s == old(self).flags@,
                s.len() == T::SIZE,
                bits == W::spec_bits(),
                8 <= bits <= 64,
                len == self.flags.data@.len(),
                T::SIZE <= len * bits,
            decreases len - self.word_index,
        {
            let ghost pos = self.spec_pos();
            let ghost wi = self.word_index as nat;
            let ghost end = (wi + 1) * (bits as nat);
            proof {
                assert(end == wi * bits + bits) by (nonlinear_arith)
                    requires
                        end == (wi + 1) * (bits as nat),
                ;
                if self.word_index < len {
                    assert forall|q: int| pos <= q < end && q < s.len() implies !#[trigger] s[q] by {
                        lemma_in_word(q as nat, wi, bits as nat);
                        lemma_bit_zero((q - wi * bits) as u64);
                        assert(bit_of(self.current, (q - wi * bits) as u64) == bit_of(
                            self.flags.data@[wi as int].spec_value(),
                            (q - wi * bits) as u64,
                        ));
                    }
                    lemma_members_skip(s, pos, end);
                }
            }
            if self.word_index >= len || self.word_index + 1 >= len {
                proof {
                    if self.word_index < len {
                        assert(end >= len * bits) by (nonlinear_arith)
                            requires
                                end == (wi + 1) * bits,
                                wi + 1 >= len,
                                bits >= 0,
                        ;
                        assert(members_from(s, end) =~= Seq::<nat>::empty());
                        assert(start.len() == 0);
                    } else {
                        assert(pos >= len * bits);
                        assert(members_from(s, pos) =~= Seq::<nat>::empty());
                        assert(start.len() == 0);
                    }
                }
                self.word_index = len;
                self.cut = Ghost(0);
                return None;
            }
            self.word_index = self.word_index + 1;
            self.current = self.flags.data[self.word_index].widen();
            self.cut = Ghost(0);
            proof {
                assert(self.spec_pos() == end);
            }
        }
        let ghost pos = self.spec_pos();
        let ghost wi = self.word_index as nat;
        let ghost word = self.flags.data@[self.word_index as int].spec_value();
        let tz = self.current.trailing_zeros() as u64;
        proof {
            axiom_u64_trailing_zeros(self.current);
            assert(bit_of(self.current, tz));
            assert(bit_of(word, tz) && tz >= self.cut@);
            self.flags.data@[wi as int].lemma_word();
            lemma_fits_bit(word, bits as u64, tz);
            assert(wi * bits + tz < len * bits) by (nonlinear_arith)
                requires
                    wi < len,
                    tz < bits,
            ;
            lemma_in_word((wi * bits + tz) as nat, wi, bits as nat);
            assert(self.flags.spec_bit((wi * bits + tz) as nat));
            assert(wi * bits + tz < T::SIZE);
        }
        let p = self.word_index * bits + tz as usize;
        proof {
            assert forall|q: int| pos <= q < p && q < s.len() implies !#[trigger] s[q] by {
                let j = (q - wi * bits) as u64;
                lemma_in_word(q as nat, wi, bits as nat);
                assert((self.current >> j) & 1u64 == 0u64);
                assert(bit_of(self.current, j) == bit_of(word, j));
            }
            lemma_members_skip(s, pos, p as nat);
            assert(s[p as int]);
        }
        let mask = 1u64 << tz;
        let ghost old_current = self.current;
        self.current = self.current & !mask;
        self.cut = Ghost((tz + 1) as nat);
        proof {
            assert forall|j: u64| j < 64 implies #[trigger] bit_of(self.current, j) == (j >= self.cut@
                && bit_of(word, j)) by {
                lemma_bit_clear(old_current, tz, j);
                if j < tz {
                    assert((old_current >> j) & 1u64 == 0u64);
                }
            }
            assert(self.spec_pos() == p + 1);
            assert(start == seq![p as nat] + members_from(s, (p + 1) as nat));
            assert(self@ =~= start.drop_first());
        }
        Some(EnumIndex::from_usize_unchecked(p))
    }
}

/// Walks over the members of a set in ascending order.
pub struct EnumSetIter<'a, T: Enumoid, BitsetWord: BitsetWordTrait> {
    iter: EnumSetIndexIter<'a, T, BitsetWord>,
}

impl<'a, T: Enumoid, W: BitsetWordTrait> View for EnumSetIter<'a, T, W> {
    /// The positions of the members still to come.
    type V = Seq<nat>;

    closed spec fn view(&self) -> Seq<nat> {
        self.iter@
    }
}

impl<'a, T: Enumoid, W: BitsetWordTrait> EnumSetIter<'a, T, W> {
    pub closed spec fn wf(&self) -> bool {
        self.iter.wf()
    }

    pub fn new(flags: &'a EnumSet<T, W>) -> (r: Self)
        requires
            flags.wf(),
        ensures
            r.wf(),
            r@ == members(flags@),
    {
        EnumSetIter { iter: EnumSetIndexIter::new(flags) }
    }

    /// The next member, or `None` when all have been seen.
    pub fn next(&mut self) -> (r: Option<T>)
        requires
            old(self).wf(),
        ensures
            final(self).wf(),
            old(self)@.len() == 0 ==> r.is_none() && final(self)@ == old(self)@,
            old(self)@.len() > 0 ==> r.is_some() && r.unwrap().spec_word() == old(self)@[0]
                && final(self)@ == old(self)@.drop_first(),
    {
        match self.iter.next() {
            Some(index) => Some(index.into_value()),
            None => None,
        }
    }

    /// How many members are left in the word being scanned.
    pub closed spec fn spec_pending(&self) -> nat {
        self.iter.spec_pending()
    }

    /// How many positions of the domain lie past the word being scanned.
    pub closed spec fn spec_room(&self) -> nat {
        self.iter.spec_room()
    }

    /// Bounds on how many members are still to come: at least those left in the
    /// word being scanned, at most those plus every position past that word.
    pub fn size_hint(&self) -> (r: (usize, Option<usize>))
        requires
            self.wf(),
        ensures
            r.0 == self.spec_pending(),
            r.1.is_some(),
            r.1.unwrap() == self.spec_pending() + self.spec_room(),
            r.0 <= self@.len() <= r.1.unwrap(),
    {
        self.iter.size_hint()
    }
}

/// From bit `j` of word `w` on, the set bits are the members at the matching
/// positions.
proof fn lemma_word_count_bits<T: Enumoid, W: BitsetWordTrait>(set: &EnumSet<T, W>, w: nat, j: nat)
    requires
        set.wf(),
        w < set.data@.len(),
        j <= W::spec_bits(),
    ensures
        count_bits(set.data@[w as int].spec_value(), j, W::spec_bits()) == count_between(
            set@,
            w * W::spec_bits() + j,
            w * W::spec_bits() + W::spec_bits(),
        ),
    decreases W::spec_bits() - j,
{
    W::lemma_bits();
    if j < W::spec_bits() {
        lemma_word_count_bits(set, w, j + 1);
        set.lemma_word_bit(w, j);
    }
}

/// There are no more set flags between two positions than positions.
proof fn lemma_count_between_bound(s: Seq<bool>, lo: nat, hi: nat)
    ensures
        count_between(s, lo, hi) <= if lo <= hi {
            hi - lo
        } else {
            0
        },
    decreases hi - lo,
{
    if lo < hi {
        lemma_count_between_bound(s, lo + 1, hi);
    }
}

/// From bit `j` of the word being scanned on, the set bits are the members
/// at the matching positions.
proof fn lemma_count_bits_positions<'a, T: Enumoid, W: BitsetWordTrait>(
    it: &EnumSetIndexIter<'a, T, W>,
    s: Seq<bool>,
    wi: nat,
    b: nat,
    cut: nat,
    j: nat,
)
    requires
        it.wf(),
        s == it.flags@,
        wi == it.word_index,
        wi < it.flags.data@.len(),
        b == W::spec_bits(),
        cut == it.cut@,
        cut <= j <= b,
    ensures
        count_bits(it.current, j, b) == count_between(s, wi * b + j, wi * b + b),
    decreases b - j,
{
    W::lemma_bits();
    if j < b {
        lemma_count_bits_positions(it, s, wi, b, cut, j + 1);
        let q = wi * b + j;
        lemma_in_word(q, wi, b);
        lemma_words_cover(T::SIZE as nat, b);
        assert(q < it.flags.data@.len() * b) by (nonlinear_arith)
            requires
                q == wi * b + j,
                j < b,
                wi < it.flags.data@.len(),
        ;
        assert(bit_of(it.current, j as u64) == bit_of(
            it.flags.data@[wi as int].spec_value(),
            j as u64,
        ));
        if q >= s.len() {
            assert(!it.flags.spec_bit(q));
        }
    }
}

} // verus!
