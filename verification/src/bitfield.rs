//! A bit field inside a 128-bit word, described by its offset and its width.
//!
//! Every address layout in this crate is a list of [`FieldSpec`] values.  The
//! executable operations are `mask`, `get` and `set`.  Their results are
//! given twice: as the usual shift-and-mask formulas ([`field_mask`],
//! [`field_get`], [`field_set`]) and bit by bit, through [`bit`].  The proof
//! functions named `lemma_..` are the laws of the three operations; they are
//! proved from the bit-by-bit reading.

use vstd::arithmetic::div_mod::lemma_mod_breakdown;
use vstd::arithmetic::power2::{lemma2_to64, lemma_pow2_pos, lemma_pow2_unfold, pow2};
use vstd::bits::lemma_u128_shr_is_div;
use vstd::prelude::*;

verus! {

/// One field of a packed word: `length` bits starting at bit `offset`,
/// counted from the least significant bit.
#[derive(Clone, Copy, Debug, PartialEq, Eq)]
pub struct FieldSpec {
    pub name: &'static str,
    pub offset: usize,
    pub length: usize,
}

/// Bit `i` of `word`, bit 0 being the least significant.  There are no bits
/// below 0 or from 128 on.
pub open spec fn bit(word: u128, i: int) -> bool {
    0 <= i < 128 && bit_at(word, i as u32)
}

/// Bit `i` of `word`, for a position given in a machine integer.
pub open spec fn bit_at(word: u128, i: u32) -> bool {
    (word >> i) & 1 == 1
}

/// The word whose lowest `length` bits are set and no others.
pub open spec fn low_ones(length: usize) -> u128 {
    if length >= 128 {
        u128::MAX
    } else {
        ((1u128 << length) - 1) as u128
    }
}

/// The bits of a word that belong to the field of `length` bits at `offset`.
pub open spec fn field_mask(offset: usize, length: usize) -> u128 {
    low_ones(length) << offset
}

/// The field's content, moved down to bit 0.
pub open spec fn field_get(value: u128, offset: usize, length: usize) -> u128 {
    (value & field_mask(offset, length)) >> offset
}

/// `value` with the field's bits replaced by the low bits of `field`.
pub open spec fn field_set(value: u128, field: u128, offset: usize, length: usize) -> u128 {
    (value & !field_mask(offset, length)) | ((field << offset) & field_mask(offset, length))
}

/// Whether the field of `length` bits at `offset` lies inside the word.
pub open spec fn in_word(offset: usize, length: usize) -> bool {
    offset < 128 && offset + length <= 128
}

impl FieldSpec {
    /// A descriptor is well formed when the field lies inside the word.  A
    /// field may be empty; its mask is then zero.
    pub open spec fn wf(&self) -> bool {
        in_word(self.offset, self.length)
    }

    /// The mask as a formula: `length` ones, moved up by `offset`.
    pub open spec fn spec_mask(&self) -> u128 {
        field_mask(self.offset, self.length)
    }

    /// The content as a formula: what the mask lets through, moved down by
    /// `offset`.
    pub open spec fn spec_get(&self, value: u128) -> u128 {
        field_get(value, self.offset, self.length)
    }

    /// The written word as a formula: `value` outside the mask, `field`
    /// moved up by `offset` inside it.
    pub open spec fn spec_set(&self, value: u128, field: u128) -> u128 {
        field_set(value, field, self.offset, self.length)
    }

    /// Whether bit `j` of a word belongs to the field.
    pub open spec fn covers(&self, j: int) -> bool {
        self.offset <= j < self.offset + self.length
    }

    /// Whether `field` can be stored in the field without losing bits.
    pub open spec fn holds(&self, field: u128) -> bool {
        field <= low_ones(self.length)
    }

    /// Describes the field of `length` bits whose lowest bit is bit `offset`.
    pub fn new(name: &'static str, length: usize, offset: usize) -> (f: Self)
        requires
            in_word(offset, length),
        ensures
            f.wf(),
            f.name == name,
            f.offset == offset,
            f.length == length,
    {
        Self { name, offset, length }
    }

    /// The mask of the field: ones at the field's bits, zeros elsewhere.
    #[verifier::when_used_as_spec(spec_mask)]
    pub fn mask(&self) -> (m: u128)
        requires
            self.wf(),
        ensures
            m == self.spec_mask(),
            forall|j: int| #[trigger] bit(m, j) == self.covers(j),
    {
        proof {
            lemma_mask_bits(*self);
        }
        if self.length >= 128 {
            u128::MAX << self.offset
        } else {
            let length: usize = self.length;
            assert((1u128 << length) >= 1) by (bit_vector)
                requires
                    length < 128,
            ;
            ((1u128 << self.length) - 1) << self.offset
        }
    }

    /// Reads the field out of `value`: bit `i` of the result is bit
    /// `offset + i` of `value` for `i` below `length`, and zero above.  In
    /// numbers, the result is `value` divided by 2 to the power of `offset`,
    /// modulo 2 to the power of `length`.
    #[verifier::when_used_as_spec(spec_get)]
    pub fn get(&self, value: u128) -> (field: u128)
        requires
            self.wf(),
        ensures
            field == self.spec_get(value),
            field == ((value as nat) / pow2(self.offset as nat)) % pow2(self.length as nat),
            self.holds(field),
            field < pow2(self.length as nat),
            forall|i: int| #[trigger]
                bit(field, i) == (0 <= i < self.length && bit(value, self.offset + i)),
    {
        proof {
            lemma_get_bits(*self, value);
            lemma_get_bounded(*self, value);
            lemma_get_value(*self, value);
        }
        (value & self.mask()) >> self.offset
    }

    /// Writes the low `length` bits of `field` into the field of `value`; the
    /// bits of `value` outside the field stay as they are.
    #[verifier::when_used_as_spec(spec_set)]
    pub fn set(&self, value: u128, field: u128) -> (word: u128)
        requires
            self.wf(),
        ensures
            word == self.spec_set(value, field),
            word & !self.mask() == value & !self.mask(),
            word & self.mask() == (field << self.offset) & self.mask(),
            forall|j: int| #[trigger]
                bit(word, j) == (if self.covers(j) {
                    bit(field, j - self.offset)
                } else {
                    bit(value, j)
                }),
    {
        proof {
            lemma_set_bits(*self, value, field);
            lemma_set_frame(*self, value, field);
        }
        (value & !self.mask()) | ((field << self.offset) & self.mask())
    }
}

spec fn low_ones_u32(length: u32) -> u128 {
    if length >= 128 {
        u128::MAX
    } else {
        ((1u128 << length) - 1) as u128
    }
}

/// The position of the lowest set bit of a nonzero word, found by halving.
spec fn lowest_set_bit(word: u128) -> u32 {
    let s6: u32 = if word & 0xffff_ffff_ffff_ffff == 0 { 64 } else { 0 };
    let w6 = word >> s6;
    let s5: u32 = if w6 & 0xffff_ffff == 0 { 32 } else { 0 };
    let w5 = w6 >> s5;
    let s4: u32 = if w5 & 0xffff == 0 { 16 } else { 0 };
    let w4 = w5 >> s4;
    let s3: u32 = if w4 & 0xff == 0 { 8 } else { 0 };
    let w3 = w4 >> s3;
    let s2: u32 = if w3 & 0xf == 0 { 4 } else { 0 };
    let w2 = w3 >> s2;
    let s1: u32 = if w2 & 0x3 == 0 { 2 } else { 0 };
    let w1 = w2 >> s1;
    let s0: u32 = if w1 & 0x1 == 0 { 1 } else { 0 };
    (s6 + s5 + s4 + s3 + s2 + s1 + s0) as u32
}

proof fn bits_of_logic(a: u128, b: u128, i: u32)
    by (bit_vector)
    requires
        i < 128,
    ensures
        bit_at(a & b, i) == (bit_at(a, i) && bit_at(b, i)),
        bit_at(a | b, i) == (bit_at(a, i) || bit_at(b, i)),
        bit_at(!a, i) == !bit_at(a, i),
{
}

proof fn bits_of_shl(x: u128, shift: u32, i: u32)
    by (bit_vector)
    requires
        shift < 128,
        i < 128,
    ensures
        bit_at(x << shift, i) == (i >= shift && bit_at(x, (i - shift) as u32)),
{
}

proof fn bits_of_shr(x: u128, shift: u32, i: u32)
    by (bit_vector)
    requires
        shift < 128,
        i < 128,
    ensures
        bit_at(x >> shift, i) == (i + shift < 128 && bit_at(x, (i + shift) as u32)),
{
}

proof fn bits_of_low_ones(length: u32, i: u32)
    by (bit_vector)
    requires
        i < 128,
    ensures
        bit_at(low_ones_u32(length), i) == (i < length),
{
}

proof fn bits_above_bound(x: u128, length: u32, i: u32)
    by (bit_vector)
    requires
        x <= low_ones_u32(length),
        length <= i < 128,
    ensures
        !bit_at(x, i),
{
}

proof fn bound_of_masked(x: u128, length: u32)
    by (bit_vector)
    ensures
        x & low_ones_u32(length) <= low_ones_u32(length),
{
}

proof fn differing_bit(x: u128, y: u128)
    by (bit_vector)
    requires
        x != y,
    ensures
        lowest_set_bit(x ^ y) < 128,
        bit_at(x, lowest_set_bit(x ^ y)) != bit_at(y, lowest_set_bit(x ^ y)),
{
}

proof fn low_ones_step(length: u32)
    by (bit_vector)
    requires
        length < 127,
    ensures
        low_ones_u32((length + 1) as u32) == 2 * low_ones_u32(length) + 1,
        low_ones_u32(0) == 0,
        low_ones_u32(127) == 0x7fff_ffff_ffff_ffff_ffff_ffff_ffff_ffff,
{
}

proof fn low_bits_step(x: u128, length: u32)
    by (bit_vector)
    requires
        length < 128,
    ensures
        x & low_ones_u32((length + 1) as u32) == (x & low_ones_u32(length)) + (if (x >> length)
            % 2 == 1 {
            low_ones_u32(length) + 1
        } else {
            0
        }),
        x & low_ones_u32(0) == 0,
{
}

/// How the bits of a word built with `&`, `|`, `!`, `<<` and `>>` follow from
/// the bits of its operands, and which bits of [`low_ones`] are set.
pub proof fn lemma_bit_rules()
    ensures
        forall|a: u128, b: u128, i: int| #[trigger] bit(a & b, i) == (bit(a, i) && bit(b, i)),
        forall|a: u128, b: u128, i: int| #[trigger] bit(a | b, i) == (bit(a, i) || bit(b, i)),
        forall|a: u128, i: int| #[trigger] bit(!a, i) == (0 <= i < 128 && !bit(a, i)),
        forall|x: u128, shift: usize, i: int|
            shift < 128 ==> #[trigger] bit(x << shift, i) == (shift <= i < 128 && bit(
                x,
                i - shift,
            )),
        forall|x: u128, shift: usize, i: int|
            shift < 128 ==> #[trigger] bit(x >> shift, i) == (0 <= i && bit(x, i + shift)),
        forall|length: usize, i: int| #[trigger]
            bit(low_ones(length), i) == (0 <= i < 128 && i < length),
{
    assert forall|a: u128, b: u128, i: int| #[trigger]
        bit(a & b, i) == (bit(a, i) && bit(b, i)) by {
        if 0 <= i < 128 {
            bits_of_logic(a, b, i as u32);
        }
    }
    assert forall|a: u128, b: u128, i: int| #[trigger]
        bit(a | b, i) == (bit(a, i) || bit(b, i)) by {
        if 0 <= i < 128 {
            bits_of_logic(a, b, i as u32);
        }
    }
    assert forall|a: u128, i: int| #[trigger] bit(!a, i) == (0 <= i < 128 && !bit(a, i)) by {
        if 0 <= i < 128 {
            bits_of_logic(a, a, i as u32);
        }
    }
    assert forall|x: u128, shift: usize, i: int| shift < 128 implies #[trigger] bit(x << shift, i)
        == (shift <= i < 128 && bit(x, i - shift)) by {
        if 0 <= i < 128 {
            bits_of_shl(x, shift as u32, i as u32);
        }
    }
    assert forall|x: u128, shift: usize, i: int| shift < 128 implies #[trigger] bit(x >> shift, i)
        == (0 <= i && bit(x, i + shift)) by {
        if 0 <= i < 128 {
            bits_of_shr(x, shift as u32, i as u32);
        }
    }
    assert forall|length: usize, i: int| #[trigger]
        bit(low_ones(length), i) == (0 <= i < 128 && i < length) by {
        if 0 <= i < 128 {
            if length >= 128 {
                bits_of_low_ones(128u32, i as u32);
            } else {
                bits_of_low_ones(length as u32, i as u32);
            }
        }
    }
}

/// Two words with the same bits are the same word.
pub proof fn lemma_bits_equal(x: u128, y: u128)
    requires
        forall|i: int| 0 <= i < 128 ==> bit(x, i) == bit(y, i),
    ensures
        x == y,
{
    if x != y {
        differing_bit(x, y);
        let i = lowest_set_bit(x ^ y);
        assert(bit(x, i as int) != bit(y, i as int));
    }
}

/// The word 0 has no bit set.
pub proof fn lemma_zero_bits()
    ensures
        forall|i: int| !#[trigger] bit(0u128, i),
{
    assert forall|i: int| !#[trigger] bit(0u128, i) by {
        if 0 <= i < 128 {
            bits_of_low_ones(0u32, i as u32);
            low_ones_step(0);
        }
    }
}

/// The word of `length` low ones is 2^`length` - 1, up to the full word of
/// 128 ones.
pub proof fn lemma_low_ones_value(length: usize)
    ensures
        length <= 128 ==> low_ones(length) == pow2(length as nat) - 1,
        length >= 128 ==> low_ones(length) == pow2(128) - 1,
    decreases length,
{
    if length == 0 {
        low_ones_step(0);
        lemma2_to64();
    } else if length < 128 {
        lemma_low_ones_value((length - 1) as usize);
        low_ones_step((length - 1) as u32);
        lemma_pow2_unfold(length as nat);
    } else {
        lemma_low_ones_value(127);
        low_ones_step(0);
        lemma_pow2_unfold(128);
    }
}

/// The low `length` bits of a word are the word modulo 2^`length`.
pub proof fn lemma_low_bits_value(x: u128, length: usize)
    requires
        length <= 128,
    ensures
        x & low_ones(length) == (x as nat) % pow2(length as nat),
    decreases length,
{
    if length == 0 {
        low_bits_step(x, 0);
        lemma2_to64();
        let one = pow2(0);
        assert((x as nat) % one == 0) by (nonlinear_arith)
            requires
                one == 1,
        ;
    } else {
        let shorter = (length - 1) as usize;
        let half = pow2(shorter as nat);
        let top = ((x as nat) / half) % 2;
        lemma_low_bits_value(x, shorter);
        low_bits_step(x, shorter as u32);
        lemma_low_ones_value(shorter);
        lemma_pow2_unfold(length as nat);
        lemma_pow2_pos(shorter as nat);
        lemma_u128_shr_is_div(x, shorter as u128);
        lemma_mod_breakdown(x as int, half as int, 2);
        assert(x >> shorter == (x as nat) / half);
        assert(low_ones(shorter) + 1 == half);
        assert(half * top == if top == 1 { half } else { 0 }) by (nonlinear_arith)
            requires
                top == 0 || top == 1,
        ;
        assert(half * 2 == pow2(length as nat));
        assert((x as nat) % pow2(length as nat) == half * top + (x as nat) % half);
    }
}

/// The mask has exactly the field's bits set.
pub proof fn lemma_mask_bits(f: FieldSpec)
    requires
        f.wf(),
    ensures
        forall|j: int| #[trigger] bit(f.mask(), j) == f.covers(j),
{
    lemma_bit_rules();
}

/// Bit `i` of a field's content is bit `offset + i` of the word, for `i`
/// below the field's width; the content has no bits above.
pub proof fn lemma_get_bits(f: FieldSpec, value: u128)
    requires
        f.wf(),
    ensures
        forall|i: int| #[trigger]
            bit(f.get(value), i) == (0 <= i < f.length && bit(value, f.offset + i)),
{
    lemma_bit_rules();
}

/// After a write, the field's bits are the low bits of the written value and
/// every other bit of the word is as it was.
pub proof fn lemma_set_bits(f: FieldSpec, value: u128, field: u128)
    requires
        f.wf(),
    ensures
        forall|j: int| #[trigger]
            bit(f.set(value, field), j) == (if f.covers(j) {
                bit(field, j - f.offset)
            } else {
                bit(value, j)
            }),
{
    lemma_bit_rules();
}

/// A write changes nothing outside the mask, and inside the mask it puts
/// the written value moved up by the offset.
pub proof fn lemma_set_frame(f: FieldSpec, value: u128, field: u128)
    requires
        f.wf(),
    ensures
        f.set(value, field) & !f.mask() == value & !f.mask(),
        f.set(value, field) & f.mask() == (field << f.offset) & f.mask(),
{
    lemma_bit_rules();
    lemma_bits_equal(f.set(value, field) & !f.mask(), value & !f.mask());
    lemma_bits_equal(f.set(value, field) & f.mask(), (field << f.offset) & f.mask());
}

/// A value fits in a field exactly when it has no bit at or above the
/// field's width.
pub proof fn lemma_holds_bits(f: FieldSpec, field: u128)
    ensures
        f.holds(field) <==> (forall|i: int| i >= f.length ==> !bit(field, i)),
{
    let length: u32 = if f.length >= 128 {
        128u32
    } else {
        f.length as u32
    };
    if f.holds(field) {
        assert forall|i: int| i >= f.length implies !bit(field, i) by {
            if 0 <= i < 128 {
                bits_above_bound(field, length, i as u32);
            }
        }
    }
    if forall|i: int| i >= f.length ==> !bit(field, i) {
        lemma_bit_rules();
        lemma_bits_equal(field & low_ones(f.length), field);
        bound_of_masked(field, length);
    }
}

/// A field read out of any word fits in the field's width: it is below 2 to
/// the power of the width.
pub proof fn lemma_get_bounded(f: FieldSpec, value: u128)
    requires
        f.wf(),
    ensures
        f.holds(f.get(value)),
        f.get(value) < pow2(f.length as nat),
{
    lemma_get_bits(f, value);
    lemma_holds_bits(f, f.get(value));
    lemma_low_ones_value(f.length);
}

/// A field's content in numbers: the word divided by 2 to the power of the
/// offset, modulo 2 to the power of the width.
pub proof fn lemma_get_value(f: FieldSpec, value: u128)
    requires
        f.wf(),
    ensures
        f.get(value) == ((value as nat) / pow2(f.offset as nat)) % pow2(f.length as nat),
{
    let moved = value >> f.offset;
    lemma_bit_rules();
    lemma_bits_equal(f.get(value), moved & low_ones(f.length));
    lemma_low_bits_value(moved, f.length);
    lemma_u128_shr_is_div(value, f.offset as u128);
}

/// Reading a field back after writing it gives the low bits of what was
/// written; a value that fits comes back unchanged.
pub proof fn lemma_get_after_set(f: FieldSpec, value: u128, field: u128)
    requires
        f.wf(),
    ensures
        f.get(f.set(value, field)) == field & low_ones(f.length),
        f.holds(field) ==> f.get(f.set(value, field)) == field,
{
    lemma_bit_rules();
    lemma_bits_equal(f.get(f.set(value, field)), field & low_ones(f.length));
    if f.holds(field) {
        lemma_holds_bits(f, field);
        lemma_bits_equal(field & low_ones(f.length), field);
    }
}

/// Writing back what was read changes nothing.
pub proof fn lemma_set_after_get(f: FieldSpec, value: u128)
    requires
        f.wf(),
    ensures
        f.set(value, f.get(value)) == value,
{
    lemma_bit_rules();
    lemma_bits_equal(f.set(value, f.get(value)), value);
}

/// The last write to a field wins; in particular, writing the same value
/// twice is the same as writing it once.
pub proof fn lemma_set_after_set(f: FieldSpec, value: u128, first: u128, second: u128)
    requires
        f.wf(),
    ensures
        f.set(f.set(value, first), second) == f.set(value, second),
{
    lemma_bit_rules();
    lemma_bits_equal(f.set(f.set(value, first), second), f.set(value, second));
}

/// The AND of two masks is zero exactly when no bit belongs to both fields.
pub proof fn lemma_disjoint_masks(a: FieldSpec, b: FieldSpec)
    requires
        a.wf(),
        b.wf(),
    ensures
        a.mask() & b.mask() == 0 <==> (forall|j: int| !(a.covers(j) && #[trigger] b.covers(j))),
{
    lemma_bit_rules();
    lemma_zero_bits();
    let both = a.mask() & b.mask();
    if both == 0 {
        assert forall|j: int| !(a.covers(j) && #[trigger] b.covers(j)) by {
            assert(bit(both, j) == (bit(a.mask(), j) && bit(b.mask(), j)));
        }
    }
    if forall|j: int| !(a.covers(j) && #[trigger] b.covers(j)) {
        assert forall|j: int| 0 <= j < 128 implies bit(both, j) == bit(0, j) by {
            assert(!(a.covers(j) && b.covers(j)));
        }
        lemma_bits_equal(both, 0);
    }
}

/// Two fields of which one ends where or before the other begins share no
/// bit: the AND of their masks is zero.
pub proof fn lemma_masks_disjoint(lower: FieldSpec, upper: FieldSpec)
    requires
        lower.wf(),
        upper.wf(),
        lower.offset + lower.length <= upper.offset,
    ensures
        lower.mask() & upper.mask() == 0,
        upper.mask() & lower.mask() == 0,
{
    lemma_disjoint_masks(lower, upper);
    lemma_disjoint_masks(upper, lower);
}

/// Writing one field does not change what another field reads, when the two
/// share no bit.
pub proof fn lemma_get_other_after_set(
    written: FieldSpec,
    read: FieldSpec,
    value: u128,
    field: u128,
)
    requires
        written.wf(),
        read.wf(),
        written.mask() & read.mask() == 0,
    ensures
        read.get(written.set(value, field)) == read.get(value),
{
    lemma_bit_rules();
    lemma_disjoint_masks(written, read);
    assert forall|i: int| 0 <= i < 128 implies bit(read.get(written.set(value, field)), i) == bit(
        read.get(value),
        i,
    ) by {
        assert(!(written.covers(read.offset + i) && read.covers(read.offset + i)));
    }
    lemma_bits_equal(read.get(written.set(value, field)), read.get(value));
}

/// A field cut in two at any point: the two parts share no bit, together
/// they cover the field, their widths add up to the field's, and the upper
/// part's content followed by the lower part's is the field's content.
pub proof fn lemma_split(whole: FieldSpec, lower: FieldSpec, upper: FieldSpec, value: u128)
    requires
        whole.wf(),
        lower.offset == whole.offset,
        lower.length <= whole.length,
        upper.offset == whole.offset + lower.length,
        upper.length == whole.length - lower.length,
        upper.offset < 128,
    ensures
        lower.wf(),
        upper.wf(),
        lower.length + upper.length == whole.length,
        upper.mask() & lower.mask() == 0,
        upper.mask() | lower.mask() == whole.mask(),
        whole.get(value) == (upper.get(value) << lower.length) | lower.get(value),
{
    lemma_bit_rules();
    lemma_zero_bits();
    lemma_bits_equal(upper.mask() & lower.mask(), 0);
    lemma_bits_equal(upper.mask() | lower.mask(), whole.mask());
    lemma_bits_equal(
        whole.get(value),
        (upper.get(value) << lower.length) | lower.get(value),
    );
}

} // verus!
