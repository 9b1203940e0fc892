use enumoid::EnumIndex;
use enumoid::Enumoid;
use std::fmt::Debug;
use std::iter::zip;

#[derive(Debug, Clone, Copy, PartialEq)]
enum Three {
    A,
    B,
    C,
}

impl Enumoid for Three {
    type Word = u8;
    const SIZE: usize = 3;
    const FIRST: Self = Three::A;
    const LAST: Self = Three::C;

    fn size_word() -> u8 {
        3
    }

    fn into_word(self) -> u8 {
        self as u8
    }

    fn from_word_unchecked(value: u8) -> Self {
        match value {
            0 => Three::A,
            1 => Three::B,
            _ => Three::C,
        }
    }
}

#[derive(Debug, Clone, Copy, PartialEq)]
enum WideThree {
    A,
    B,
    C,
}

impl Enumoid for WideThree {
    type Word = u32;
    const SIZE: usize = 3;
    const FIRST: Self = WideThree::A;
    const LAST: Self = WideThree::C;

    fn size_word() -> u32 {
        3
    }

    fn into_word(self) -> u32 {
        self as u32
    }

    fn from_word_unchecked(value: u32) -> Self {
        match value {
            0 => WideThree::A,
            1 => WideThree::B,
            _ => WideThree::C,
        }
    }
}

#[derive(Debug, Clone, Copy, PartialEq)]
struct StructOne;

impl Enumoid for StructOne {
    type Word = u8;
    const SIZE: usize = 1;
    const FIRST: Self = StructOne;
    const LAST: Self = StructOne;

    fn size_word() -> u8 {
        1
    }

    fn into_word(self) -> u8 {
        0
    }

    fn from_word_unchecked(_value: u8) -> Self {
        StructOne
    }
}

#[derive(Debug, Clone, Copy, PartialEq)]
struct StructThree(Three);

impl Enumoid for StructThree {
    type Word = u8;
    const SIZE: usize = 3;
    const FIRST: Self = StructThree(Three::A);
    const LAST: Self = StructThree(Three::C);

    fn size_word() -> u8 {
        3
    }

    fn into_word(self) -> u8 {
        self.0.into_word()
    }

    fn from_word_unchecked(value: u8) -> Self {
        StructThree(Three::from_word_unchecked(value))
    }
}

#[derive(Debug, Clone, Copy, PartialEq)]
enum CompoundSeven {
    X(Three),
    Y,
    Z(Three),
}

impl Enumoid for CompoundSeven {
    type Word = u8;
    const SIZE: usize = 7;
    const FIRST: Self = CompoundSeven::X(Three::A);
    const LAST: Self = CompoundSeven::Z(Three::C);

    fn size_word() -> u8 {
        7
    }

    fn into_word(self) -> u8 {
        match self {
            CompoundSeven::X(x) => x.into_word(),
            CompoundSeven::Y => 3,
            CompoundSeven::Z(z) => 4 + z.into_word(),
        }
    }

    fn from_word_unchecked(value: u8) -> Self {
        match value {
            0..=2 => CompoundSeven::X(Three::from_word_unchecked(value)),
            3 => CompoundSeven::Y,
            _ => CompoundSeven::Z(Three::from_word_unchecked(value - 4)),
        }
    }
}

#[derive(Debug, Clone, Copy, PartialEq)]
enum CompoundOnWideSeven {
    X(WideThree),
    Y,
    Z(WideThree),
}

impl Enumoid for CompoundOnWideSeven {
    type Word = u8;
    const SIZE: usize = 7;
    const FIRST: Self = CompoundOnWideSeven::X(WideThree::A);
    const LAST: Self = CompoundOnWideSeven::Z(WideThree::C);

    fn size_word() -> u8 {
        7
    }

    fn into_word(self) -> u8 {
        match self {
            CompoundOnWideSeven::X(x) => x.into_word() as u8,
            CompoundOnWideSeven::Y => 3,
            CompoundOnWideSeven::Z(z) => 4 + z.into_word() as u8,
        }
    }

    fn from_word_unchecked(value: u8) -> Self {
        match value {
            0..=2 => CompoundOnWideSeven::X(WideThree::from_word_unchecked(value as u32)),
            3 => CompoundOnWideSeven::Y,
            _ => CompoundOnWideSeven::Z(WideThree::from_word_unchecked((value - 4) as u32)),
        }
    }
}

#[derive(Debug, Clone, Copy, PartialEq)]
enum CompoundWideOnSeven {
    X(Three),
    Y,
    Z(Three),
}

impl Enumoid for CompoundWideOnSeven {
    type Word = u32;
    const SIZE: usize = 7;
    const FIRST: Self = CompoundWideOnSeven::X(Three::A);
    const LAST: Self = CompoundWideOnSeven::Z(Three::C);

    fn size_word() -> u32 {
        7
    }

    fn into_word(self) -> u32 {
        match self {
            CompoundWideOnSeven::X(x) => x.into_word() as u32,
            CompoundWideOnSeven::Y => 3,
            CompoundWideOnSeven::Z(z) => 4 + z.into_word() as u32,
        }
    }

    fn from_word_unchecked(value: u32) -> Self {
        match value {
            0..=2 => CompoundWideOnSeven::X(Three::from_word_unchecked(value as u8)),
            3 => CompoundWideOnSeven::Y,
            _ => CompoundWideOnSeven::Z(Three::from_word_unchecked((value - 4) as u8)),
        }
    }
}

#[derive(Debug, Clone, Copy, PartialEq)]
enum Sixteen {
    A,
    B,
    C,
    D,
    E,
    F,
    G,
    H,
    I,
    J,
    K,
    L,
    M,
    N,
    O,
    P,
}

const SIXTEEN: [Sixteen; 16] = [
    Sixteen::A,
    Sixteen::B,
    Sixteen::C,
    Sixteen::D,
    Sixteen::E,
    Sixteen::F,
    Sixteen::G,
    Sixteen::H,
    Sixteen::I,
    Sixteen::J,
    Sixteen::K,
    Sixteen::L,
    Sixteen::M,
    Sixteen::N,
    Sixteen::O,
    Sixteen::P,
];

impl Enumoid for Sixteen {
    type Word = u8;
    const SIZE: usize = 16;
    const FIRST: Self = Sixteen::A;
    const LAST: Self = Sixteen::P;

    fn size_word() -> u8 {
        16
    }

    fn into_word(self) -> u8 {
        self as u8
    }

    fn from_word_unchecked(value: u8) -> Self {
        SIXTEEN[value as usize]
    }
}

#[derive(Debug, Clone, Copy, PartialEq)]
enum Seventeen {
    A,
    B,
    C,
    D,
    E,
    F,
    G,
    H,
    I,
    J,
    K,
    L,
    M,
    N,
    O,
    P,
    Q,
}

const SEVENTEEN: [Seventeen; 17] = [
    Seventeen::A,
    Seventeen::B,
    Seventeen::C,
    Seventeen::D,
    Seventeen::E,
    Seventeen::F,
    Seventeen::G,
    Seventeen::H,
    Seventeen::I,
    Seventeen::J,
    Seventeen::K,
    Seventeen::L,
    Seventeen::M,
    Seventeen::N,
    Seventeen::O,
    Seventeen::P,
    Seventeen::Q,
];

impl Enumoid for Seventeen {
    type Word = u8;
    const SIZE: usize = 17;
    const FIRST: Self = Seventeen::A;
    const LAST: Self = Seventeen::Q;

    fn size_word() -> u8 {
        17
    }

    fn into_word(self) -> u8 {
        self as u8
    }

    fn from_word_unchecked(value: u8) -> Self {
        SEVENTEEN[value as usize]
    }
}

#[derive(Debug, Clone, Copy, PartialEq)]
struct ThreeHundred(u16);

impl Enumoid for ThreeHundred {
    type Word = u16;
    const SIZE: usize = 300;
    const FIRST: Self = ThreeHundred(0);
    const LAST: Self = ThreeHundred(299);

    fn size_word() -> u16 {
        300
    }

    fn into_word(self) -> u16 {
        self.0
    }

    fn from_word_unchecked(value: u16) -> Self {
        ThreeHundred(value)
    }
}

fn test_type<T: Enumoid + Copy + Debug + PartialEq>(values: &[T]) {
    assert_eq!(T::FIRST, *values.first().unwrap());
    assert_eq!(T::LAST, *values.last().unwrap());
    assert_eq!(T::SIZE, values.len());
    let test: Vec<T> = values.to_vec();
    assert_eq!(T::SIZE, test.len());
    for (i, (x, y)) in zip(test, values.iter().copied()).enumerate() {
        assert_eq!(x, y);
        assert_eq!(EnumIndex::from_value(x).into_usize(), i);
        if i == 0 {
            assert_eq!(x.prev(), None);
            assert_eq!(x.prev_wrapped(), T::LAST);
        } else {
            assert_eq!(x.prev(), Some(values[i - 1]));
            assert_eq!(x.prev_wrapped(), values[i - 1]);
        }
        if i == values.len() - 1 {
            assert_eq!(x.next(), None);
            assert_eq!(x.next_wrapped(), T::FIRST);
        } else {
            assert_eq!(x.next(), Some(values[i + 1]));
            assert_eq!(x.next_wrapped(), values[i + 1]);
        }
    }
}

#[test]
fn test_first() {
    assert_eq!(Three::FIRST, Three::A);
    assert_eq!(Sixteen::FIRST, Sixteen::A);
    assert_eq!(Seventeen::FIRST, Seventeen::A);
}

#[test]
fn test_last() {
    assert_eq!(Three::LAST, Three::C);
    assert_eq!(Sixteen::LAST, Sixteen::P);
    assert_eq!(Seventeen::LAST, Seventeen::Q);
}

#[test]
fn order_test_three() {
    test_type::<Three>(&[Three::A, Three::B, Three::C]);
    test_type::<WideThree>(&[WideThree::A, WideThree::B, WideThree::C]);
}

#[test]
fn order_test_struct() {
    test_type::<StructOne>(&[StructOne]);
    test_type::<StructThree>(&[
        StructThree(Three::A),
        StructThree(Three::B),
        StructThree(Three::C),
    ]);
}

#[test]
fn order_test_compound_seven() {
    test_type::<CompoundSeven>(&[
        CompoundSeven::X(Three::A),
        CompoundSeven::X(Three::B),
        CompoundSeven::X(Three::C),
        CompoundSeven::Y,
        CompoundSeven::Z(Three::A),
        CompoundSeven::Z(Three::B),
        CompoundSeven::Z(Three::C),
    ]);
    test_type::<CompoundOnWideSeven>(&[
        CompoundOnWideSeven::X(WideThree::A),
        CompoundOnWideSeven::X(WideThree::B),
        CompoundOnWideSeven::X(WideThree::C),
        CompoundOnWideSeven::Y,
        CompoundOnWideSeven::Z(WideThree::A),
        CompoundOnWideSeven::Z(WideThree::B),
        CompoundOnWideSeven::Z(WideThree::C),
    ]);
    test_type::<CompoundWideOnSeven>(&[
        CompoundWideOnSeven::X(Three::A),
        CompoundWideOnSeven::X(Three::B),
        CompoundWideOnSeven::X(Three::C),
        CompoundWideOnSeven::Y,
        CompoundWideOnSeven::Z(Three::A),
        CompoundWideOnSeven::Z(Three::B),
        CompoundWideOnSeven::Z(Three::C),
    ]);
}

#[test]
fn order_test_sixteen() {
    test_type::<Sixteen>(&SIXTEEN);
}

#[test]
fn order_test_seventeen() {
    test_type::<Seventeen>(&SEVENTEEN);
}

#[test]
fn order_test_three_hundred() {
    assert_eq!(ThreeHundred::SIZE, 300);
}

#[test]
fn keys_in_order() {
    assert_eq!(Three::iter(), vec![Three::A, Three::B, Three::C]);
    assert_eq!(Three::iter_from(Three::B), vec![Three::B, Three::C]);
    assert_eq!(Three::iter_until(Three::B), vec![Three::A, Three::B]);
    assert_eq!(Three::iter_from_until(Three::B, Three::B), vec![Three::B]);
    assert_eq!(Three::from_word(2), Some(Three::C));
    assert_eq!(Three::from_word(3), None);
    assert_eq!(ThreeHundred::iter().len(), 300);
}

#[test]
fn word_round_trip() {
    for w in 0..300u16 {
        assert_eq!(ThreeHundred::from_word_unchecked(w).into_word(), w);
    }
    for k in Seventeen::iter() {
        assert_eq!(Seventeen::from_word_unchecked(k.into_word()), k);
    }
}
