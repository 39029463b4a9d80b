//! Sets of ASCII bytes that select what the percent-encoder escapes.

use vstd::prelude::*;

verus! {

/// A set of ASCII bytes (`0..=127`), kept as a bitmap of 128 bits.
///
/// Bit `b` of the bitmap is set exactly when byte `b` is a member of the set.
#[derive(Clone, Copy, Debug, PartialEq, Eq)]
pub struct AsciiSet {
    mask: u128,
}

/// Whether bit `byte` of `mask` is set.
pub open spec fn bit_is_set(mask: u128, byte: u8) -> bool {
    (mask >> (byte as u128)) & 1u128 == 1u128
}

/// The C0 controls and DEL: `0x00..=0x1F` and `0x7F`.
pub open spec fn controls_set() -> Set<u8> {
    Set::new(|b: u8| b <= 0x1f || b == 0x7f)
}

/// Whether `b` is an ASCII letter or digit.
pub open spec fn is_ascii_alphanumeric(b: u8) -> bool {
    (0x30 <= b <= 0x39) || (0x41 <= b <= 0x5a) || (0x61 <= b <= 0x7a)
}

/// Every ASCII byte that is neither a letter nor a digit.
pub open spec fn non_alphanumeric_set() -> Set<u8> {
    Set::new(|b: u8| b < 128 && !is_ascii_alphanumeric(b))
}

const CONTROLS_MASK: u128 = 0x800000000000000000000000ffffffff;

const NON_ALPHANUMERIC_MASK: u128 = 0xf8000001f8000001fc00ffffffffffff;

impl View for AsciiSet {
    type V = Set<u8>;

    /// The members of the set: the ASCII bytes whose bit is set.
    closed spec fn view(&self) -> Set<u8> {
        Set::new(|b: u8| b < 128 && bit_is_set(self.mask, b))
    }
}

impl AsciiSet {
    /// Whether `byte` has to be escaped under this set: every byte outside ASCII has to,
    /// and an ASCII byte has to when it is a member.
    pub open spec fn escapes(&self, byte: u8) -> bool {
        byte >= 128 || self@.contains(byte)
    }

    /// The set whose members are the bytes `b < 128` with bit `b` set in `mask`.
    pub fn from_mask(mask: u128) -> (r: AsciiSet)
        ensures
            forall|b: u8| #[trigger] r@.contains(b) <==> (b < 128 && bit_is_set(mask, b)),
    {
        AsciiSet { mask }
    }

    /// The set without members.
    pub fn empty() -> (r: &'static AsciiSet)
        ensures
            r@ == Set::<u8>::empty(),
    {
        let r = &AsciiSet { mask: 0 };
        proof {
            assert forall|b: u8| !bit_is_set(0u128, b) by {
                let x = b as u128;
                assert((0u128 >> x) & 1u128 != 1u128) by (bit_vector);
            }
            assert(r@ =~= Set::<u8>::empty());
        }
        r
    }

    /// Whether `byte` is a member of the set.
    pub fn contains(&self, byte: u8) -> (r: bool)
        ensures
            r == self@.contains(byte),
    {
        if byte < 128 {
            (self.mask >> (byte as u128)) & 1u128 == 1u128
        } else {
            false
        }
    }

    /// Whether `byte` has to be escaped under this set.
    pub fn should_percent_encode(&self, byte: u8) -> (r: bool)
        ensures
            r == self.escapes(byte),
    {
        byte >= 128 || self.contains(byte)
    }

    /// The set with `byte` as an additional member.
    pub fn add(&self, byte: u8) -> (r: AsciiSet)
        requires
            byte < 128,
        ensures
            r@ == self@.insert(byte),
    {
        let mask = self.mask | (1u128 << (byte as u128));
        let r = AsciiSet { mask };
        proof {
            let old_mask = self.mask;
            assert forall|b: u8| b < 128 implies (bit_is_set(mask, b) <==> (b == byte || bit_is_set(
                old_mask,
                b,
            ))) by {
                lemma_set_bit(old_mask, byte, b);
            }
            assert(r@ =~= self@.insert(byte));
        }
        r
    }

    /// The set without `byte`.
    pub fn remove(&self, byte: u8) -> (r: AsciiSet)
        requires
            byte < 128,
        ensures
            r@ == self@.remove(byte),
    {
        let mask = self.mask & !(1u128 << (byte as u128));
        let r = AsciiSet { mask };
        proof {
            let old_mask = self.mask;
            assert forall|b: u8| b < 128 implies (bit_is_set(mask, b) <==> (b != byte && bit_is_set(
                old_mask,
                b,
            ))) by {
                lemma_clear_bit(old_mask, byte, b);
            }
            assert(r@ =~= self@.remove(byte));
        }
        r
    }
}

/// The set of the C0 controls and DEL.
pub fn controls() -> (r: &'static AsciiSet)
    ensures
        r@ == controls_set(),
{
    let r = &AsciiSet { mask: CONTROLS_MASK };
    proof {
        assert forall|b: u8| b < 128 implies (bit_is_set(CONTROLS_MASK, b) <==> (b <= 0x1f || b
            == 0x7f)) by {
            let x = b as u128;
            assert(x < 128 ==> (((0x800000000000000000000000ffffffffu128 >> x) & 1u128 == 1u128)
                <==> (x <= 0x1f || x == 0x7f))) by (bit_vector);
        }
        assert(r@ =~= controls_set());
    }
    r
}

/// The set of every ASCII byte that is neither a letter nor a digit.
pub fn non_alphanumeric() -> (r: &'static AsciiSet)
    ensures
        r@ == non_alphanumeric_set(),
{
    let r = &AsciiSet { mask: NON_ALPHANUMERIC_MASK };
    proof {
        assert forall|b: u8| b < 128 implies (bit_is_set(NON_ALPHANUMERIC_MASK, b)
            <==> !is_ascii_alphanumeric(b)) by {
            let x = b as u128;
            assert(x < 128 ==> (((0xf8000001f8000001fc00ffffffffffffu128 >> x) & 1u128 == 1u128)
                <==> !((0x30 <= x && x <= 0x39) || (0x41 <= x && x <= 0x5a) || (0x61 <= x && x
                <= 0x7a)))) by (bit_vector);
        }
        assert(r@ =~= non_alphanumeric_set());
    }
    r
}

proof fn lemma_set_bit(mask: u128, byte: u8, b: u8)
    requires
        byte < 128,
        b < 128,
    ensures
        bit_is_set(mask | (1u128 << (byte as u128)), b) <==> (b == byte || bit_is_set(mask, b)),
{
    let x = byte as u128;
    let y = b as u128;
    assert(x < 128 && y < 128 ==> ((((mask | (1u128 << x)) >> y) & 1u128 == 1u128) <==> (y == x || (
    mask >> y) & 1u128 == 1u128))) by (bit_vector);
}

proof fn lemma_clear_bit(mask: u128, byte: u8, b: u8)
    requires
        byte < 128,
        b < 128,
    ensures
        bit_is_set(mask & !(1u128 << (byte as u128)), b) <==> (b != byte && bit_is_set(mask, b)),
{
    let x = byte as u128;
    let y = b as u128;
    assert(x < 128 && y < 128 ==> ((((mask & !(1u128 << x)) >> y) & 1u128 == 1u128) <==> (y != x && (
    mask >> y) & 1u128 == 1u128))) by (bit_vector);
}

} // verus!
