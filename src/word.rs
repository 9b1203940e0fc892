use vstd::prelude::*;

verus! {

/// The unsigned integer type that stores a key's position, or a count of keys,
/// for one domain.
pub trait RawSizeWord: Copy + core::fmt::Debug + Eq + Ord {
    spec fn spec_nat(self) -> nat;

    spec fn spec_max() -> nat;

    proof fn lemma_bounds(self)
        ensures
            self.spec_nat() <= Self::spec_max(),
            Self::spec_max() <= usize::MAX,
    ;

    fn zero() -> (r: Self)
        ensures
            r.spec_nat() == 0,
    ;

    fn inc(self) -> (r: Self)
        requires
            self.spec_nat() < Self::spec_max(),
        ensures
            r.spec_nat() == self.spec_nat() + 1,
    ;

    fn dec(self) -> (r: Self)
        requires
            self.spec_nat() > 0,
        ensures
            r.spec_nat() == self.spec_nat() - 1,
    ;

    fn as_(self) -> (r: usize)
        ensures
            r as nat == self.spec_nat(),
    ;

    fn from_usize_unchecked(x: usize) -> (r: Self)
        requires
            x as nat <= Self::spec_max(),
        ensures
            r.spec_nat() == x as nat,
    ;
}

impl RawSizeWord for u8 {
    open spec fn spec_nat(self) -> nat {
        self as nat
    }

    open spec fn spec_max() -> nat {
        u8::MAX as nat
    }

    proof fn lemma_bounds(self) {
    }

    fn zero() -> (r: Self) {
        0
    }

    fn inc(self) -> (r: Self) {
        self + 1
    }

    fn dec(self) -> (r: Self) {
        self - 1
    }

    fn as_(self) -> (r: usize) {
        self as usize
    }

    fn from_usize_unchecked(x: usize) -> (r: Self) {
        x as u8
    }
}

impl RawSizeWord for u16 {
    open spec fn spec_nat(self) -> nat {
        self as nat
    }

    open spec fn spec_max() -> nat {
        u16::MAX as nat
    }

    proof fn lemma_bounds(self) {
    }

    fn zero() -> (r: Self) {
        0
    }

    fn inc(self) -> (r: Self) {
        self + 1
    }

    fn dec(self) -> (r: Self) {
        self - 1
    }

    fn as_(self) -> (r: usize) {
        self as usize
    }

    fn from_usize_unchecked(x: usize) -> (r: Self) {
        x as u16
    }
}

impl RawSizeWord for u32 {
    open spec fn spec_nat(self) -> nat {
        self as nat
    }

    open spec fn spec_max() -> nat {
        u32::MAX as nat
    }

    proof fn lemma_bounds(self) {
    }

    fn zero() -> (r: Self) {
        0
    }

    fn inc(self) -> (r: Self) {
        self + 1
    }

    fn dec(self) -> (r: Self) {
        self - 1
    }

    fn as_(self) -> (r: usize) {
        self as usize
    }

    fn from_usize_unchecked(x: usize) -> (r: Self) {
        x as u32
    }
}

impl RawSizeWord for usize {
    open spec fn spec_nat(self) -> nat {
        self as nat
    }

    open spec fn spec_max() -> nat {
        usize::MAX as nat
    }

    proof fn lemma_bounds(self) {
    }

    fn zero() -> (r: Self) {
        0
    }

    fn inc(self) -> (r: Self) {
        self + 1
    }

    fn dec(self) -> (r: Self) {
        self - 1
    }

    fn as_(self) -> (r: usize) {
        self
    }

    fn from_usize_unchecked(x: usize) -> (r: Self) {
        x
    }
}

/// Bit `i` of `x`, counting from the least significant bit.
pub open spec fn bit_of(x: u64, i: u64) -> bool {
    (x >> i) & 1u64 == 1u64
}

/// `x` has no bit set at or above position `bits`.
pub open spec fn fits(x: u64, bits: nat) -> bool {
    bits >= 64 || x < (1u64 << (bits as u64))
}

/// The word whose low `n` bits are set and whose other bits are clear.
pub open spec fn low_mask(n: u64) -> u64 {
    if n >= 64 {
        !0u64
    } else {
        ((1u64 << n) - 1) as u64
    }
}

/// The word whose low `n` bits are set.
pub fn low_bits(n: u64) -> (r: u64)
    requires
        n <= 64,
    ensures
        r == low_mask(n),
{
    if n >= 64 {
        !0u64
    } else {
        assert(1u64 << n >= 1u64) by (bit_vector)
            requires
                n < 64,
        ;
        ((1u64 << n) - 1) as u64
    }
}

pub proof fn lemma_bit_set(x: u64, b: u64, j: u64)
    requires
        b < 64,
        j < 64,
    ensures
        bit_of(x | (1u64 << b), j) == (j == b || bit_of(x, j)),
{
    assert(((x | (1u64 << b)) >> j) & 1u64 == 1u64 <==> (j == b || (x >> j) & 1u64 == 1u64))
        by (bit_vector)
        requires
            b < 64,
            j < 64,
    ;
}

pub proof fn lemma_bit_clear(x: u64, b: u64, j: u64)
    requires
        b < 64,
        j < 64,
    ensures
        bit_of(x & !(1u64 << b), j) == (j != b && bit_of(x, j)),
{
    assert(((x & !(1u64 << b)) >> j) & 1u64 == 1u64 <==> (j != b && (x >> j) & 1u64 == 1u64))
        by (bit_vector)
        requires
            b < 64,
            j < 64,
    ;
}

pub proof fn lemma_bit_zero(j: u64)
    requires
        j < 64,
    ensures
        !bit_of(0u64, j),
{
    assert((0u64 >> j) & 1u64 != 1u64) by (bit_vector);
}

pub proof fn lemma_low_mask(n: u64, j: u64)
    requires
        n <= 64,
        j < 64,
    ensures
        bit_of(low_mask(n), j) == (j < n),
        fits(low_mask(n), n as nat),
{
    if n >= 64 {
        assert(((!0u64) >> j) & 1u64 == 1u64) by (bit_vector)
            requires
                j < 64,
        ;
    } else {
        assert(((((1u64 << n) - 1) as u64) >> j) & 1u64 == 1u64 <==> j < n) by (bit_vector)
            requires
                n < 64,
                j < 64,
        ;
        assert((((1u64 << n) - 1) as u64) < (1u64 << n)) by (bit_vector)
            requires
                n < 64,
        ;
    }
}

pub proof fn lemma_fits_set(x: u64, b: u64, n: u64)
    requires
        b < n,
        n <= 64,
        fits(x, n as nat),
    ensures
        fits(x | (1u64 << b), n as nat),
{
    if n < 64 {
        assert((x | (1u64 << b)) < (1u64 << n)) by (bit_vector)
            requires
                b < n,
                n < 64,
                x < (1u64 << n),
        ;
    }
}

pub proof fn lemma_fits_clear(x: u64, b: u64, n: u64)
    requires
        b < 64,
        n <= 64,
        fits(x, n as nat),
    ensures
        fits(x & !(1u64 << b), n as nat),
{
    if n < 64 {
        assert((x & !(1u64 << b)) < (1u64 << n)) by (bit_vector)
            requires
                n < 64,
                x < (1u64 << n),
        ;
    }
}

pub proof fn lemma_fits_bit(x: u64, n: u64, j: u64)
    requires
        n <= 64,
        j < 64,
        fits(x, n as nat),
        bit_of(x, j),
    ensures
        j < n,
{
    if n < 64 && j >= n {
        assert((x >> j) & 1u64 != 1u64) by (bit_vector)
            requires
                x < (1u64 << n),
                n < 64,
                j >= n,
                j < 64,
        ;
    }
}

pub proof fn lemma_fits_wider(x: u64, a: u64, b: u64)
    requires
        a <= b,
        b <= 64,
        fits(x, a as nat),
    ensures
        fits(x, b as nat),
{
    if b < 64 {
        assert(x < (1u64 << b)) by (bit_vector)
            requires
                x < (1u64 << a),
                a <= b,
                b < 64,
        ;
    }
}

/// Two words that differ have a bit where they differ.
pub proof fn lemma_differ_at_bit(x: u64, y: u64)
    requires
        x != y,
    ensures
        exists|j: u64| j < 64 && bit_of(x, j) != bit_of(y, j),
{
    let d = x ^ y;
    assert(d != 0) by (bit_vector)
        requires
            x != y,
            d == x ^ y,
    ;
    vstd::std_specs::bits::axiom_u64_trailing_zeros(d);
    let j = vstd::std_specs::bits::u64_trailing_zeros(d) as u64;
    assert(((x ^ y) >> j) & 1u64 == 1u64 ==> (((x >> j) & 1u64 == 1u64) != ((y >> j) & 1u64
        == 1u64))) by (bit_vector)
        requires
            j < 64,
    ;
    assert(bit_of(x, j) != bit_of(y, j));
}

/// A word with a bit set somewhere has a lowest set bit.
pub proof fn lemma_nonzero_has_bit(x: u64)
    requires
        x != 0,
    ensures
        exists|j: u64| j < 64 && bit_of(x, j),
{
    vstd::std_specs::bits::axiom_u64_trailing_zeros(x);
    let j = vstd::std_specs::bits::u64_trailing_zeros(x) as u64;
    assert(bit_of(x, j));
}

/// The machine word in which a set packs its membership bits.
pub trait BitsetWordTrait: Copy {
    spec fn spec_bits() -> nat;

    /// The word's bits, as the low bits of a `u64`.
    spec fn spec_value(self) -> u64;

    proof fn lemma_bits()
        ensures
            8 <= Self::spec_bits() <= 64,
    ;

    proof fn lemma_word(self)
        ensures
            fits(self.spec_value(), Self::spec_bits()),
    ;

    fn bits() -> (r: usize)
        ensures
            r as nat == Self::spec_bits(),
    ;

    fn zero() -> (r: Self)
        ensures
            r.spec_value() == 0,
    ;

    fn widen(self) -> (r: u64)
        ensures
            r == self.spec_value(),
    ;

    fn narrow(x: u64) -> (r: Self)
        requires
            fits(x, Self::spec_bits()),
        ensures
            r.spec_value() == x,
    ;
}

impl BitsetWordTrait for u8 {
    open spec fn spec_bits() -> nat {
        8
    }

    open spec fn spec_value(self) -> u64 {
        self as u64
    }

    proof fn lemma_bits() {
    }

    proof fn lemma_word(self) {
        assert(1u64 << 8u64 == 256u64) by (bit_vector);
    }

    fn bits() -> (r: usize) {
        8
    }

    fn zero() -> (r: Self) {
        0
    }

    fn widen(self) -> (r: u64) {
        self as u64
    }

    fn narrow(x: u64) -> (r: Self) {
        assert(1u64 << 8u64 == 256u64) by (bit_vector);
        x as u8
    }
}

impl BitsetWordTrait for u16 {
    open spec fn spec_bits() -> nat {
        16
    }

    open spec fn spec_value(self) -> u64 {
        self as u64
    }

    proof fn lemma_bits() {
    }

    proof fn lemma_word(self) {
        assert(1u64 << 16u64 == 65536u64) by (bit_vector);
    }

    fn bits() -> (r: usize) {
        16
    }

    fn zero() -> (r: Self) {
        0
    }

    fn widen(self) -> (r: u64) {
        self as u64
    }

    fn narrow(x: u64) -> (r: Self) {
        assert(1u64 << 16u64 == 65536u64) by (bit_vector);
        x as u16
    }
}

impl BitsetWordTrait for u32 {
    open spec fn spec_bits() -> nat {
        32
    }

    open spec fn spec_value(self) -> u64 {
        self as u64
    }

    proof fn lemma_bits() {
    }

    proof fn lemma_word(self) {
        assert(1u64 << 32u64 == 0x1_0000_0000u64) by (bit_vector);
    }

    fn bits() -> (r: usize) {
        32
    }

    fn zero() -> (r: Self) {
        0
    }

    fn widen(self) -> (r: u64) {
        self as u64
    }

    fn narrow(x: u64) -> (r: Self) {
        assert(1u64 << 32u64 == 0x1_0000_0000u64) by (bit_vector);
        x as u32
    }
}

impl BitsetWordTrait for u64 {
    open spec fn spec_bits() -> nat {
        64
    }

    open spec fn spec_value(self) -> u64 {
        self
    }

    proof fn lemma_bits() {
    }

    proof fn lemma_word(self) {
    }

    fn bits() -> (r: usize) {
        64
    }

    fn zero() -> (r: Self) {
        0
    }

    fn widen(self) -> (r: u64) {
        self
    }

    fn narrow(x: u64) -> (r: Self) {
        x
    }
}

impl BitsetWordTrait for usize {
    open spec fn spec_bits() -> nat {
        usize::BITS as nat
    }

    open spec fn spec_value(self) -> u64 {
        self as u64
    }

    proof fn lemma_bits() {
    }

    proof fn lemma_word(self) {
        if usize::BITS == 32 {
            assert(1u64 << 32u64 == 0x1_0000_0000u64) by (bit_vector);
        }
    }

    fn bits() -> (r: usize) {
        usize::BITS as usize
    }

    fn zero() -> (r: Self) {
        0
    }

    fn widen(self) -> (r: u64) {
        self as u64
    }

    fn narrow(x: u64) -> (r: Self) {
        if usize::BITS == 32 {
            assert(1u64 << 32u64 == 0x1_0000_0000u64) by (bit_vector);
        }
        x as usize
    }
}

} // verus!
