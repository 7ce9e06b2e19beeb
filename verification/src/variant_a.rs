//! The address in two 64-bit halves, with a random field that gives up one
//! bit to a shadow flag.
//!
//! Read as one 128-bit word, `high` above `low`, the address holds from the
//! top bit down: pool (8 bits), shard (8), crush (32), random, shadow flag
//! (1), metadata flag (1), snap flag (1), local snap id (32), offset (12).
//! With the shadow flag in use the random field is 33 bits wide and ends
//! above the flag; without, it is 34 bits wide and the flag's bit is its
//! lowest.  The random field lies across the two halves.

use crate::bitfield::{
    bit, field_get, field_set, lemma_bit_rules, lemma_bits_equal, lemma_get_after_set,
    lemma_get_bounded, lemma_masks_disjoint, lemma_set_after_set, lemma_zero_bits, low_ones,
    FieldSpec,
};
use crate::error::LaddrError;
use crate::row::{row_texts, LaddrRow};
use crate::text::{
    dec_string, dec_text, digit_value, digits_end, fixed_text, flag_string, flag_text,
    has_literal_at, hex_string, hex_text, is_number_text, lemma_fixed_text,
    lemma_number_value_of_concat, lemma_text_round_trip, number_value, parse_number, push_fixed,
    push_number, radix_power, scan_digits,
};
use vstd::prelude::*;

verus! {

/// An address as its two halves.
#[derive(Clone, Copy, Debug, PartialEq, Eq, Structural)]
pub struct Laddr {
    pub low: u64,
    pub high: u64,
}

/// The two halves as one word, `high` above `low`.
pub open spec fn joined(low: u64, high: u64) -> u128 {
    ((high as u128) << 64usize) | (low as u128)
}

impl View for Laddr {
    type V = u128;

    open spec fn view(&self) -> u128 {
        joined(self.low, self.high)
    }
}

/// The named fields, by their place in the joined word.  `Random` is the
/// random field where the shadow flag is not in use, `ShadowedRandom` where
/// it is.
#[derive(Clone, Copy, Debug, PartialEq, Eq, Structural)]
pub enum Field {
    Pool,
    Shard,
    Crush,
    Random,
    ShadowedRandom,
    Shadow,
    Metadata,
    Snap,
    LocalSnapId,
    Offset,
}

impl Field {
    /// The field's place as a value for contracts.
    pub open spec fn spec_descriptor(self) -> FieldSpec {
        match self {
            Field::Pool => FieldSpec { name: "pool", offset: 120, length: 8 },
            Field::Shard => FieldSpec { name: "shard", offset: 112, length: 8 },
            Field::Crush => FieldSpec { name: "crush", offset: 80, length: 32 },
            Field::Random => FieldSpec { name: "random", offset: 46, length: 34 },
            Field::ShadowedRandom => FieldSpec { name: "random", offset: 47, length: 33 },
            Field::Shadow => FieldSpec { name: "shadow", offset: 46, length: 1 },
            Field::Metadata => FieldSpec { name: "metadata", offset: 45, length: 1 },
            Field::Snap => FieldSpec { name: "snap", offset: 44, length: 1 },
            Field::LocalSnapId => FieldSpec { name: "local_snap_id", offset: 12, length: 32 },
            Field::Offset => FieldSpec { name: "offset", offset: 0, length: 12 },
        }
    }

    /// Where the field lies in the joined word.
    #[verifier::when_used_as_spec(spec_descriptor)]
    pub fn descriptor(self) -> (f: FieldSpec)
        ensures
            f == self.spec_descriptor(),
            f.wf(),
    {
        match self {
            Field::Pool => FieldSpec::new("pool", 8, 120),
            Field::Shard => FieldSpec::new("shard", 8, 112),
            Field::Crush => FieldSpec::new("crush", 32, 80),
            Field::Random => FieldSpec::new("random", 34, 46),
            Field::ShadowedRandom => FieldSpec::new("random", 33, 47),
            Field::Shadow => FieldSpec::new("shadow", 1, 46),
            Field::Metadata => FieldSpec::new("metadata", 1, 45),
            Field::Snap => FieldSpec::new("snap", 1, 44),
            Field::LocalSnapId => FieldSpec::new("local_snap_id", 32, 12),
            Field::Offset => FieldSpec::new("offset", 12, 0),
        }
    }

    /// Whether the field is part of the layout in the given mode: with the
    /// shadow flag in use the narrower random field and the flag, without it
    /// the wider random field alone.
    pub open spec fn in_layout(self, has_shadow: bool) -> bool {
        if has_shadow {
            self != Field::Random
        } else {
            self != Field::ShadowedRandom && self != Field::Shadow
        }
    }

    /// The field's content in the joined word `word`.
    pub open spec fn of(self, word: u128) -> u128 {
        self.descriptor().spec_get(word)
    }

    /// `word` with the field's content replaced.
    pub open spec fn put(self, word: u128, content: u128) -> u128 {
        self.descriptor().spec_set(word, content)
    }
}

/// The random field of the given mode.
pub open spec fn random_field(has_shadow: bool) -> Field {
    if has_shadow {
        Field::ShadowedRandom
    } else {
        Field::Random
    }
}

/// A flag as the content of a one-bit field.
pub open spec fn flag_bit(flag: bool) -> u128 {
    if flag {
        1
    } else {
        0
    }
}

/// `half` with bit `at` set to `flag`.
pub open spec fn with_bit(half: u64, at: usize, flag: bool) -> u64 {
    (half & !(1u64 << at)) | (if flag {
        1u64 << at
    } else {
        0
    })
}

/// `half` with the bits below `from` cleared.
pub open spec fn without_low_bits(half: u64, from: usize) -> u64 {
    half & !(((1u64 << from) - 1) as u64)
}

proof fn fields_in_halves(low: u64, high: u64)
    by (bit_vector)
    ensures
        field_get(joined(low, high), 120usize, 8usize) == high >> 56usize,
        field_get(joined(low, high), 112usize, 8usize) == (high >> 48usize) & 0xff,
        field_get(joined(low, high), 80usize, 32usize) == (high >> 16usize) & 0xffff_ffff,
        field_get(joined(low, high), 47usize, 33usize) == ((high & 0xffff) << 17usize) | (low
            >> 47usize),
        field_get(joined(low, high), 46usize, 34usize) == ((high & 0xffff) << 18usize) | (low
            >> 46usize),
        field_get(joined(low, high), 46usize, 1usize) == (low >> 46usize) & 1,
        field_get(joined(low, high), 45usize, 1usize) == (low >> 45usize) & 1,
        field_get(joined(low, high), 44usize, 1usize) == (low >> 44usize) & 1,
        field_get(joined(low, high), 12usize, 32usize) == (low >> 12usize) & 0xffff_ffff,
        field_get(joined(low, high), 0usize, 12usize) == low & 0xfff,
        (low & 0xfff) << 12usize == (low & 0xfff) * 4096,
        ((low & 0xfff) << 12usize) % 4096 == 0,
{
}

impl Laddr {
    /// The pool as a formula on the halves.
    pub open spec fn spec_pool(&self) -> u64 {
        self.high >> 56usize
    }

    /// The shard as a formula on the halves.
    pub open spec fn spec_shard(&self) -> u64 {
        (self.high >> 48usize) & 0xff
    }

    /// The crush hash as a formula on the halves.
    pub open spec fn spec_crush(&self) -> u64 {
        (self.high >> 16usize) & 0xffff_ffff
    }

    /// The random field of the given mode as a formula on the halves.
    pub open spec fn spec_random(&self, has_shadow: bool) -> u64 {
        if has_shadow {
            ((self.high & 0xffff) << 17usize) | (self.low >> 47usize)
        } else {
            ((self.high & 0xffff) << 18usize) | (self.low >> 46usize)
        }
    }

    /// The shadow flag as a formula on the halves.
    pub open spec fn spec_shadow(&self) -> bool {
        (self.low >> 46usize) & 1 == 1
    }

    /// The metadata flag as a formula on the halves.
    pub open spec fn spec_metadata(&self) -> bool {
        (self.low >> 45usize) & 1 == 1
    }

    /// The snap flag as a formula on the halves.
    pub open spec fn spec_snap(&self) -> bool {
        (self.low >> 44usize) & 1 == 1
    }

    /// The local snap id as a formula on the halves.
    pub open spec fn spec_local_snap_id(&self) -> u64 {
        (self.low >> 12usize) & 0xffff_ffff
    }

    /// The offset field as it stands in the address, in blocks.
    pub open spec fn block_offset(&self) -> u64 {
        self.low & 0xfff
    }

    /// The offset in bytes as a formula on the halves.
    pub open spec fn spec_offset(&self) -> u64 {
        (self.low & 0xfff) << 12usize
    }

    /// The address made of the two halves.
    pub fn new(low: u64, high: u64) -> (a: Self)
        ensures
            a.low == low,
            a.high == high,
    {
        Laddr { low, high }
    }

    /// The address as one 128-bit word, `high` above `low`.
    pub fn word(&self) -> (w: u128)
        ensures
            w == self@,
            w == self.high * 0x1_0000_0000_0000_0000 + self.low,
    {
        proof {
            joined_is_a_sum(self.low, self.high);
        }
        ((self.high as u128) << 64) | (self.low as u128)
    }

    /// The pool: bits 63 to 56 of `high`.
    #[verifier::when_used_as_spec(spec_pool)]
    pub fn pool(&self) -> (r: u64)
        ensures
            r == self.spec_pool(),
            r == Field::Pool.of(self@),
    {
        proof {
            fields_in_halves(self.low, self.high);
        }
        self.high >> 56
    }

    /// The shard: bits 55 to 48 of `high`.
    #[verifier::when_used_as_spec(spec_shard)]
    pub fn shard(&self) -> (r: u64)
        ensures
            r == self.spec_shard(),
            r == Field::Shard.of(self@),
    {
        proof {
            fields_in_halves(self.low, self.high);
        }
        (self.high >> 48) & 0xff
    }

    /// The crush hash: bits 47 to 16 of `high`.
    #[verifier::when_used_as_spec(spec_crush)]
    pub fn crush(&self) -> (r: u64)
        ensures
            r == self.spec_crush(),
            r == Field::Crush.of(self@),
    {
        proof {
            fields_in_halves(self.low, self.high);
        }
        (self.high >> 16) & 0xffff_ffff
    }

    /// The random field: the low 16 bits of `high` followed by the top bits
    /// of `low`, 17 of them where the shadow flag is in use and 18 where it
    /// is not.
    #[verifier::when_used_as_spec(spec_random)]
    pub fn random(&self, has_shadow: bool) -> (r: u64)
        ensures
            r == self.spec_random(has_shadow),
            r == random_field(has_shadow).of(self@),
    {
        proof {
            fields_in_halves(self.low, self.high);
        }
        if has_shadow {
            ((self.high & 0xffff) << 17) | (self.low >> 47)
        } else {
            ((self.high & 0xffff) << 18) | (self.low >> 46)
        }
    }

    /// The shadow flag: bit 46 of `low`.
    #[verifier::when_used_as_spec(spec_shadow)]
    pub fn shadow(&self) -> (r: bool)
        ensures
            r == self.spec_shadow(),
            r == (Field::Shadow.of(self@) == 1),
    {
        proof {
            fields_in_halves(self.low, self.high);
        }
        (self.low >> 46) & 1 == 1
    }

    /// The metadata flag: bit 45 of `low`.
    #[verifier::when_used_as_spec(spec_metadata)]
    pub fn metadata(&self) -> (r: bool)
        ensures
            r == self.spec_metadata(),
            r == (Field::Metadata.of(self@) == 1),
    {
        proof {
            fields_in_halves(self.low, self.high);
        }
        (self.low >> 45) & 1 == 1
    }

    /// The snap flag: bit 44 of `low`.
    #[verifier::when_used_as_spec(spec_snap)]
    pub fn snap(&self) -> (r: bool)
        ensures
            r == self.spec_snap(),
            r == (Field::Snap.of(self@) == 1),
    {
        proof {
            fields_in_halves(self.low, self.high);
        }
        (self.low >> 44) & 1 == 1
    }

    /// The local snap id: bits 43 to 12 of `low`.
    #[verifier::when_used_as_spec(spec_local_snap_id)]
    pub fn local_snap_id(&self) -> (r: u64)
        ensures
            r == self.spec_local_snap_id(),
            r == Field::LocalSnapId.of(self@),
    {
        proof {
            fields_in_halves(self.low, self.high);
        }
        (self.low >> 12) & 0xffff_ffff
    }

    /// The offset in bytes: bits 11 to 0 of `low`, which count blocks,
    /// times 4096.
    #[verifier::when_used_as_spec(spec_offset)]
    pub fn offset(&self) -> (r: u64)
        ensures
            r == self.spec_offset(),
            self.block_offset() == Field::Offset.of(self@),
            r == self.block_offset() * 4096,
            r % 4096 == 0,
    {
        proof {
            fields_in_halves(self.low, self.high);
        }
        (self.low & 0xfff) << 12
    }

    /// The address with the shadow flag set to `flag`, as a formula.
    pub open spec fn spec_with_shadow(&self, flag: bool) -> Laddr {
        Laddr { low: with_bit(self.low, 46, flag), high: self.high }
    }

    /// The address with the metadata flag set to `flag`, as a formula.
    pub open spec fn spec_with_metadata(&self, flag: bool) -> Laddr {
        Laddr { low: with_bit(self.low, 45, flag), high: self.high }
    }

    /// The address with the snap flag set to `flag`, as a formula.
    pub open spec fn spec_with_snap(&self, flag: bool) -> Laddr {
        Laddr { low: with_bit(self.low, 44, flag), high: self.high }
    }

    /// The object prefix of the given mode as a formula.
    pub open spec fn spec_object_prefix(&self, has_shadow: bool) -> Laddr {
        Laddr {
            low: if has_shadow {
                without_low_bits(self.low, 47)
            } else {
                without_low_bits(self.low, 46)
            },
            high: self.high,
        }
    }

    /// The node prefix as a formula.
    pub open spec fn spec_onode_prefix(&self) -> Laddr {
        Laddr { low: without_low_bits(self.low, 12), high: self.high }
    }

    /// The address with the shadow flag, bit 46 of `low`, set to `flag`.
    /// Where the shadow flag is not in use that bit is the lowest of the
    /// random field.
    #[verifier::when_used_as_spec(spec_with_shadow)]
    pub fn with_shadow(&self, flag: bool) -> (r: Laddr)
        ensures
            r == self.spec_with_shadow(flag),
            r.high == self.high,
            r@ == Field::Shadow.put(self@, flag_bit(flag)),
    {
        proof {
            flags_in_halves(self.low, self.high, flag);
        }
        let bit: u64 = if flag {
            1u64 << 46
        } else {
            0
        };
        Laddr { low: (self.low & !(1u64 << 46)) | bit, high: self.high }
    }

    /// The address with the metadata flag, bit 45 of `low`, set to `flag`.
    #[verifier::when_used_as_spec(spec_with_metadata)]
    pub fn with_metadata(&self, flag: bool) -> (r: Laddr)
        ensures
            r == self.spec_with_metadata(flag),
            r.high == self.high,
            r@ == Field::Metadata.put(self@, flag_bit(flag)),
    {
        proof {
            flags_in_halves(self.low, self.high, flag);
        }
        let bit: u64 = if flag {
            1u64 << 45
        } else {
            0
        };
        Laddr { low: (self.low & !(1u64 << 45)) | bit, high: self.high }
    }

    /// The address with the snap flag, bit 44 of `low`, set to `flag`.
    #[verifier::when_used_as_spec(spec_with_snap)]
    pub fn with_snap(&self, flag: bool) -> (r: Laddr)
        ensures
            r == self.spec_with_snap(flag),
            r.high == self.high,
            r@ == Field::Snap.put(self@, flag_bit(flag)),
    {
        proof {
            flags_in_halves(self.low, self.high, flag);
        }
        let bit: u64 = if flag {
            1u64 << 44
        } else {
            0
        };
        Laddr { low: (self.low & !(1u64 << 44)) | bit, high: self.high }
    }

    /// What all addresses of one object share: the address with everything
    /// below the random field of the given mode cleared.  `high` is kept;
    /// of `low`, the bits from 47 up where the shadow flag is in use, from
    /// 46 up where it is not.
    #[verifier::when_used_as_spec(spec_object_prefix)]
    pub fn object_prefix(&self, has_shadow: bool) -> (r: Laddr)
        ensures
            r == self.spec_object_prefix(has_shadow),
            r.high == self.high,
            r@ == self@ & !low_ones(random_field(has_shadow).descriptor().offset),
    {
        proof {
            prefixes_in_halves(self.low, self.high);
        }
        let keep: u64 = if has_shadow {
            !((1u64 << 47) - 1)
        } else {
            !((1u64 << 46) - 1)
        };
        Laddr { low: self.low & keep, high: self.high }
    }

    /// What all addresses of one object node share: the address with the
    /// offset, the lowest 12 bits of `low`, cleared.
    #[verifier::when_used_as_spec(spec_onode_prefix)]
    pub fn onode_prefix(&self) -> (r: Laddr)
        ensures
            r == self.spec_onode_prefix(),
            r.high == self.high,
            r@ == Field::Offset.put(self@, 0),
    {
        proof {
            prefixes_in_halves(self.low, self.high);
        }
        Laddr { low: self.low & !((1u64 << 12) - 1), high: self.high }
    }
}

proof fn flags_in_halves(low: u64, high: u64, flag: bool)
    by (bit_vector)
    ensures
        joined(with_bit(low, 46usize, flag), high) == field_set(
            joined(low, high),
            flag_bit(flag),
            46usize,
            1usize,
        ),
        joined(with_bit(low, 45usize, flag), high) == field_set(
            joined(low, high),
            flag_bit(flag),
            45usize,
            1usize,
        ),
        joined(with_bit(low, 44usize, flag), high) == field_set(
            joined(low, high),
            flag_bit(flag),
            44usize,
            1usize,
        ),
        1u64 << 46usize == 0x4000_0000_0000u64,
        1u64 << 45usize == 0x2000_0000_0000u64,
        1u64 << 44usize == 0x1000_0000_0000u64,
{
}

proof fn prefixes_in_halves(low: u64, high: u64)
    by (bit_vector)
    ensures
        joined(without_low_bits(low, 47usize), high) == joined(low, high) & !low_ones(47usize),
        joined(without_low_bits(low, 46usize), high) == joined(low, high) & !low_ones(46usize),
        joined(without_low_bits(low, 12usize), high) == field_set(
            joined(low, high),
            0,
            0usize,
            12usize,
        ),
        1u64 << 47usize == 0x8000_0000_0000u64,
        1u64 << 46usize == 0x4000_0000_0000u64,
        1u64 << 12usize == 0x1000u64,
{
}

proof fn halves_of_joined(low: u64, high: u64, other_low: u64, other_high: u64)
    by (bit_vector)
    requires
        joined(low, high) == joined(other_low, other_high),
    ensures
        low == other_low,
        high == other_high,
{
}

proof fn random_in_two_modes(low: u64, high: u64)
    by (bit_vector)
    ensures
        ((high & 0xffff) << 18usize) | (low >> 46usize) == 2 * (((high & 0xffff) << 17usize) | (low
            >> 47usize)) + ((low >> 46usize) & 1),
{
}

/// An address is determined by its joined word.
pub proof fn lemma_joined_is_one_to_one(a: Laddr, b: Laddr)
    ensures
        a@ == b@ <==> a == b,
{
    if a@ == b@ {
        halves_of_joined(a.low, a.high, b.low, b.high);
    }
}

/// Each accessor reads its field of the joined word.
pub proof fn lemma_fields_of_joined(a: Laddr)
    ensures
        a.pool() == Field::Pool.of(a@),
        a.shard() == Field::Shard.of(a@),
        a.crush() == Field::Crush.of(a@),
        a.random(false) == Field::Random.of(a@),
        a.random(true) == Field::ShadowedRandom.of(a@),
        a.shadow() == (Field::Shadow.of(a@) == 1),
        a.metadata() == (Field::Metadata.of(a@) == 1),
        a.snap() == (Field::Snap.of(a@) == 1),
        a.local_snap_id() == Field::LocalSnapId.of(a@),
        a.block_offset() == Field::Offset.of(a@),
        a.offset() == a.block_offset() * 4096,
{
    fields_in_halves(a.low, a.high);
}

/// Each flag setter writes its one-bit field of the joined word, and each
/// prefix clears the low end of it.
pub proof fn lemma_updates_of_joined(a: Laddr, flag: bool)
    ensures
        a.with_shadow(flag)@ == Field::Shadow.put(a@, flag_bit(flag)),
        a.with_metadata(flag)@ == Field::Metadata.put(a@, flag_bit(flag)),
        a.with_snap(flag)@ == Field::Snap.put(a@, flag_bit(flag)),
        a.object_prefix(true)@ == a@ & !low_ones(47usize),
        a.object_prefix(false)@ == a@ & !low_ones(46usize),
        a.onode_prefix()@ == Field::Offset.put(a@, 0),
{
    flags_in_halves(a.low, a.high, flag);
    prefixes_in_halves(a.low, a.high);
}

/// In either mode, no two fields of the layout share a bit.
pub proof fn lemma_fields_disjoint(a: Field, b: Field, has_shadow: bool)
    requires
        a.in_layout(has_shadow),
        b.in_layout(has_shadow),
        a != b,
    ensures
        a.descriptor().mask() & b.descriptor().mask() == 0,
{
    let fa = a.descriptor();
    let fb = b.descriptor();
    if fa.offset < fb.offset {
        lemma_masks_disjoint(fa, fb);
    } else {
        lemma_masks_disjoint(fb, fa);
    }
}

/// In either mode, the fields of the layout leave no bit of the word out.
pub proof fn lemma_fields_cover()
    ensures
        Field::Pool.descriptor().mask() | Field::Shard.descriptor().mask()
            | Field::Crush.descriptor().mask() | Field::ShadowedRandom.descriptor().mask()
            | Field::Shadow.descriptor().mask() | Field::Metadata.descriptor().mask()
            | Field::Snap.descriptor().mask() | Field::LocalSnapId.descriptor().mask()
            | Field::Offset.descriptor().mask() == u128::MAX,
        Field::Pool.descriptor().mask() | Field::Shard.descriptor().mask()
            | Field::Crush.descriptor().mask() | Field::Random.descriptor().mask()
            | Field::Metadata.descriptor().mask() | Field::Snap.descriptor().mask()
            | Field::LocalSnapId.descriptor().mask() | Field::Offset.descriptor().mask()
            == u128::MAX,
{
    lemma_bit_rules();
    assert(low_ones(128usize) == u128::MAX);
    lemma_bits_equal(
        Field::Pool.descriptor().mask() | Field::Shard.descriptor().mask()
            | Field::Crush.descriptor().mask() | Field::ShadowedRandom.descriptor().mask()
            | Field::Shadow.descriptor().mask() | Field::Metadata.descriptor().mask()
            | Field::Snap.descriptor().mask() | Field::LocalSnapId.descriptor().mask()
            | Field::Offset.descriptor().mask(),
        low_ones(128usize),
    );
    lemma_bits_equal(
        Field::Pool.descriptor().mask() | Field::Shard.descriptor().mask()
            | Field::Crush.descriptor().mask() | Field::Random.descriptor().mask()
            | Field::Metadata.descriptor().mask() | Field::Snap.descriptor().mask()
            | Field::LocalSnapId.descriptor().mask() | Field::Offset.descriptor().mask(),
        low_ones(128usize),
    );
}

/// Whether one of two fields ends where or before the other begins.
pub open spec fn apart(a: Field, b: Field) -> bool {
    a.descriptor().offset + a.descriptor().length <= b.descriptor().offset
        || b.descriptor().offset + b.descriptor().length <= a.descriptor().offset
}

/// Writing a field of the joined word leaves every field apart from it as
/// it was, and a flag written to a one-bit field is read back.
pub proof fn lemma_put_then_of(written: Field, read: Field, word: u128, content: u128)
    ensures
        apart(written, read) ==> read.of(written.put(word, content)) == read.of(word),
        written.descriptor().length == 1 && content <= 1 ==> written.of(
            written.put(word, content),
        ) == content,
{
    lemma_bit_rules();
    if apart(written, read) {
        lemma_bits_equal(read.of(written.put(word, content)), read.of(word));
    }
    if written.descriptor().length == 1 && content <= 1 {
        assert(low_ones(1usize) == 1u128) by (bit_vector);
        lemma_get_after_set(written.descriptor(), word, content);
    }
}

/// The metadata flag reads as what it was last set to, and setting it
/// changes no other field in either mode.
pub proof fn lemma_with_metadata(a: Laddr, flag: bool)
    ensures
        a.with_metadata(flag).metadata() == flag,
        a.with_metadata(flag).pool() == a.pool(),
        a.with_metadata(flag).shard() == a.shard(),
        a.with_metadata(flag).crush() == a.crush(),
        a.with_metadata(flag).random(true) == a.random(true),
        a.with_metadata(flag).random(false) == a.random(false),
        a.with_metadata(flag).shadow() == a.shadow(),
        a.with_metadata(flag).snap() == a.snap(),
        a.with_metadata(flag).local_snap_id() == a.local_snap_id(),
        a.with_metadata(flag).offset() == a.offset(),
{
    let r = a.with_metadata(flag);
    lemma_updates_of_joined(a, flag);
    lemma_fields_of_joined(a);
    lemma_fields_of_joined(r);
    lemma_put_then_of(Field::Metadata, Field::Metadata, a@, flag_bit(flag));
    lemma_put_then_of(Field::Metadata, Field::Pool, a@, flag_bit(flag));
    lemma_put_then_of(Field::Metadata, Field::Shard, a@, flag_bit(flag));
    lemma_put_then_of(Field::Metadata, Field::Crush, a@, flag_bit(flag));
    lemma_put_then_of(Field::Metadata, Field::ShadowedRandom, a@, flag_bit(flag));
    lemma_put_then_of(Field::Metadata, Field::Random, a@, flag_bit(flag));
    lemma_put_then_of(Field::Metadata, Field::Shadow, a@, flag_bit(flag));
    lemma_put_then_of(Field::Metadata, Field::Snap, a@, flag_bit(flag));
    lemma_put_then_of(Field::Metadata, Field::LocalSnapId, a@, flag_bit(flag));
    lemma_put_then_of(Field::Metadata, Field::Offset, a@, flag_bit(flag));
}

/// The snap flag reads as what it was last set to, and setting it changes
/// no other field in either mode.
pub proof fn lemma_with_snap(a: Laddr, flag: bool)
    ensures
        a.with_snap(flag).snap() == flag,
        a.with_snap(flag).pool() == a.pool(),
        a.with_snap(flag).shard() == a.shard(),
        a.with_snap(flag).crush() == a.crush(),
        a.with_snap(flag).random(true) == a.random(true),
        a.with_snap(flag).random(false) == a.random(false),
        a.with_snap(flag).shadow() == a.shadow(),
        a.with_snap(flag).metadata() == a.metadata(),
        a.with_snap(flag).local_snap_id() == a.local_snap_id(),
        a.with_snap(flag).offset() == a.offset(),
{
    let r = a.with_snap(flag);
    lemma_updates_of_joined(a, flag);
    lemma_fields_of_joined(a);
    lemma_fields_of_joined(r);
    lemma_put_then_of(Field::Snap, Field::Snap, a@, flag_bit(flag));
    lemma_put_then_of(Field::Snap, Field::Pool, a@, flag_bit(flag));
    lemma_put_then_of(Field::Snap, Field::Shard, a@, flag_bit(flag));
    lemma_put_then_of(Field::Snap, Field::Crush, a@, flag_bit(flag));
    lemma_put_then_of(Field::Snap, Field::ShadowedRandom, a@, flag_bit(flag));
    lemma_put_then_of(Field::Snap, Field::Random, a@, flag_bit(flag));
    lemma_put_then_of(Field::Snap, Field::Shadow, a@, flag_bit(flag));
    lemma_put_then_of(Field::Snap, Field::Metadata, a@, flag_bit(flag));
    lemma_put_then_of(Field::Snap, Field::LocalSnapId, a@, flag_bit(flag));
    lemma_put_then_of(Field::Snap, Field::Offset, a@, flag_bit(flag));
}

/// Where the shadow flag is not in use, the random field is the random
/// field of the other mode followed by the shadow flag's bit.
pub proof fn lemma_random_holds_shadow(a: Laddr)
    ensures
        a.random(false) == 2 * a.random(true) + (if a.shadow() {
            1int
        } else {
            0int
        }),
{
    random_in_two_modes(a.low, a.high);
    let low = a.low;
    assert((low >> 46usize) & 1 == 0 || (low >> 46usize) & 1 == 1) by (bit_vector);
}

/// The shadow flag reads as what it was last set to, and setting it changes
/// no other field of the mode in which the flag is in use.  In the other
/// mode the random field does change: its lowest bit becomes the flag, the
/// bits above stay.
pub proof fn lemma_with_shadow(a: Laddr, flag: bool)
    ensures
        a.with_shadow(flag).shadow() == flag,
        a.with_shadow(flag).pool() == a.pool(),
        a.with_shadow(flag).shard() == a.shard(),
        a.with_shadow(flag).crush() == a.crush(),
        a.with_shadow(flag).random(true) == a.random(true),
        a.with_shadow(flag).metadata() == a.metadata(),
        a.with_shadow(flag).snap() == a.snap(),
        a.with_shadow(flag).local_snap_id() == a.local_snap_id(),
        a.with_shadow(flag).offset() == a.offset(),
        a.with_shadow(flag).random(false) == 2 * a.random(true) + (if flag {
            1int
        } else {
            0int
        }),
        a.with_shadow(flag).random(false) == a.random(false) <==> flag == a.shadow(),
{
    let r = a.with_shadow(flag);
    lemma_updates_of_joined(a, flag);
    lemma_fields_of_joined(a);
    lemma_fields_of_joined(r);
    lemma_put_then_of(Field::Shadow, Field::Shadow, a@, flag_bit(flag));
    lemma_put_then_of(Field::Shadow, Field::Pool, a@, flag_bit(flag));
    lemma_put_then_of(Field::Shadow, Field::Shard, a@, flag_bit(flag));
    lemma_put_then_of(Field::Shadow, Field::Crush, a@, flag_bit(flag));
    lemma_put_then_of(Field::Shadow, Field::ShadowedRandom, a@, flag_bit(flag));
    lemma_put_then_of(Field::Shadow, Field::Metadata, a@, flag_bit(flag));
    lemma_put_then_of(Field::Shadow, Field::Snap, a@, flag_bit(flag));
    lemma_put_then_of(Field::Shadow, Field::LocalSnapId, a@, flag_bit(flag));
    lemma_put_then_of(Field::Shadow, Field::Offset, a@, flag_bit(flag));
    lemma_random_holds_shadow(a);
    lemma_random_holds_shadow(r);
}

/// Of two settings of one flag the later one stands.  So setting a flag
/// to the same value twice is the same as setting it once.
pub proof fn lemma_flag_set_twice(a: Laddr, first: bool, second: bool)
    ensures
        a.with_shadow(first).with_shadow(second) == a.with_shadow(second),
        a.with_metadata(first).with_metadata(second) == a.with_metadata(second),
        a.with_snap(first).with_snap(second) == a.with_snap(second),
{
    lemma_updates_of_joined(a, first);
    lemma_updates_of_joined(a, second);
    lemma_updates_of_joined(a.with_shadow(first), second);
    lemma_updates_of_joined(a.with_metadata(first), second);
    lemma_updates_of_joined(a.with_snap(first), second);
    lemma_set_after_set(Field::Shadow.descriptor(), a@, flag_bit(first), flag_bit(second));
    lemma_set_after_set(Field::Metadata.descriptor(), a@, flag_bit(first), flag_bit(second));
    lemma_set_after_set(Field::Snap.descriptor(), a@, flag_bit(first), flag_bit(second));
    lemma_joined_is_one_to_one(a.with_shadow(first).with_shadow(second), a.with_shadow(second));
    lemma_joined_is_one_to_one(
        a.with_metadata(first).with_metadata(second),
        a.with_metadata(second),
    );
    lemma_joined_is_one_to_one(a.with_snap(first).with_snap(second), a.with_snap(second));
}

/// Setting a flag is idempotent.
pub proof fn lemma_flag_set_is_idempotent(a: Laddr, flag: bool)
    ensures
        a.with_shadow(flag).with_shadow(flag) == a.with_shadow(flag),
        a.with_metadata(flag).with_metadata(flag) == a.with_metadata(flag),
        a.with_snap(flag).with_snap(flag) == a.with_snap(flag),
{
    lemma_flag_set_twice(a, flag, flag);
}

/// The object prefix keeps pool, shard, crush and the random field of its
/// mode, and clears every field below; taking it again changes nothing.
pub proof fn lemma_object_prefix(a: Laddr, has_shadow: bool)
    ensures
        a.object_prefix(has_shadow).pool() == a.pool(),
        a.object_prefix(has_shadow).shard() == a.shard(),
        a.object_prefix(has_shadow).crush() == a.crush(),
        a.object_prefix(has_shadow).random(has_shadow) == a.random(has_shadow),
        has_shadow ==> !a.object_prefix(has_shadow).shadow(),
        !a.object_prefix(has_shadow).metadata(),
        !a.object_prefix(has_shadow).snap(),
        a.object_prefix(has_shadow).local_snap_id() == 0,
        a.object_prefix(has_shadow).offset() == 0,
        a.object_prefix(has_shadow).object_prefix(has_shadow) == a.object_prefix(has_shadow),
        a.object_prefix(has_shadow).onode_prefix() == a.object_prefix(has_shadow),
{
    let p = a.object_prefix(has_shadow);
    lemma_updates_of_joined(a, false);
    lemma_updates_of_joined(p, false);
    lemma_fields_of_joined(a);
    lemma_fields_of_joined(p);
    lemma_bit_rules();
    lemma_zero_bits();
    lemma_bits_equal(Field::Pool.of(p@), Field::Pool.of(a@));
    lemma_bits_equal(Field::Shard.of(p@), Field::Shard.of(a@));
    lemma_bits_equal(Field::Crush.of(p@), Field::Crush.of(a@));
    lemma_bits_equal(random_field(has_shadow).of(p@), random_field(has_shadow).of(a@));
    if has_shadow {
        lemma_bits_equal(Field::Shadow.of(p@), 0);
    }
    lemma_bits_equal(Field::Metadata.of(p@), 0);
    lemma_bits_equal(Field::Snap.of(p@), 0);
    lemma_bits_equal(Field::LocalSnapId.of(p@), 0);
    lemma_bits_equal(Field::Offset.of(p@), 0);
    lemma_bits_equal(p.object_prefix(has_shadow)@, p@);
    lemma_joined_is_one_to_one(p.object_prefix(has_shadow), p);
    lemma_bits_equal(p.onode_prefix()@, p@);
    lemma_joined_is_one_to_one(p.onode_prefix(), p);
}

/// Two addresses have the same object prefix exactly when they agree on
/// pool, shard, crush and the random field of the mode.
pub proof fn lemma_same_object(a: Laddr, b: Laddr, has_shadow: bool)
    ensures
        a.object_prefix(has_shadow) == b.object_prefix(has_shadow) <==> (a.pool() == b.pool()
            && a.shard() == b.shard() && a.crush() == b.crush() && a.random(has_shadow)
            == b.random(has_shadow)),
{
    let pa = a.object_prefix(has_shadow);
    let pb = b.object_prefix(has_shadow);
    lemma_object_prefix(a, has_shadow);
    lemma_object_prefix(b, has_shadow);
    if a.pool() == b.pool() && a.shard() == b.shard() && a.crush() == b.crush() && a.random(
        has_shadow,
    ) == b.random(has_shadow) {
        lemma_updates_of_joined(a, false);
        lemma_updates_of_joined(b, false);
        lemma_fields_of_joined(a);
        lemma_fields_of_joined(b);
        lemma_bit_rules();
        let from = random_field(has_shadow).descriptor().offset;
        assert forall|j: int| 0 <= j < 128 implies bit(pa@, j) == bit(pb@, j) by {
            let f = if j >= 120 {
                Field::Pool
            } else if j >= 112 {
                Field::Shard
            } else if j >= 80 {
                Field::Crush
            } else {
                random_field(has_shadow)
            };
            if j >= from {
                assert(f.of(a@) == f.of(b@));
                assert(bit(f.of(a@), j - f.descriptor().offset) == bit(a@, j));
                assert(bit(f.of(b@), j - f.descriptor().offset) == bit(b@, j));
            }
        }
        lemma_bits_equal(pa@, pb@);
        lemma_joined_is_one_to_one(pa, pb);
    }
}

/// The node prefix clears the offset and keeps every other field, in either
/// mode; taking it again changes nothing, and the object prefix of a node
/// prefix is the object prefix of the address.
pub proof fn lemma_onode_prefix(a: Laddr, has_shadow: bool)
    ensures
        a.onode_prefix().offset() == 0,
        a.onode_prefix().pool() == a.pool(),
        a.onode_prefix().shard() == a.shard(),
        a.onode_prefix().crush() == a.crush(),
        a.onode_prefix().random(has_shadow) == a.random(has_shadow),
        a.onode_prefix().shadow() == a.shadow(),
        a.onode_prefix().metadata() == a.metadata(),
        a.onode_prefix().snap() == a.snap(),
        a.onode_prefix().local_snap_id() == a.local_snap_id(),
        a.onode_prefix().onode_prefix() == a.onode_prefix(),
        a.onode_prefix().object_prefix(has_shadow) == a.object_prefix(has_shadow),
{
    let q = a.onode_prefix();
    lemma_updates_of_joined(a, false);
    lemma_updates_of_joined(q, false);
    lemma_fields_of_joined(a);
    lemma_fields_of_joined(q);
    lemma_bit_rules();
    lemma_zero_bits();
    lemma_bits_equal(Field::Offset.of(q@), 0);
    lemma_bits_equal(Field::Pool.of(q@), Field::Pool.of(a@));
    lemma_bits_equal(Field::Shard.of(q@), Field::Shard.of(a@));
    lemma_bits_equal(Field::Crush.of(q@), Field::Crush.of(a@));
    lemma_bits_equal(random_field(has_shadow).of(q@), random_field(has_shadow).of(a@));
    lemma_bits_equal(Field::Shadow.of(q@), Field::Shadow.of(a@));
    lemma_bits_equal(Field::Metadata.of(q@), Field::Metadata.of(a@));
    lemma_bits_equal(Field::Snap.of(q@), Field::Snap.of(a@));
    lemma_bits_equal(Field::LocalSnapId.of(q@), Field::LocalSnapId.of(a@));
    lemma_bits_equal(q.onode_prefix()@, q@);
    lemma_joined_is_one_to_one(q.onode_prefix(), q);
    lemma_bits_equal(q.object_prefix(has_shadow)@, a.object_prefix(has_shadow)@);
    lemma_joined_is_one_to_one(q.object_prefix(has_shadow), a.object_prefix(has_shadow));
}

/// Two addresses have the same node prefix exactly when they agree on
/// every field but the offset.
pub proof fn lemma_same_onode(a: Laddr, b: Laddr)
    ensures
        a.onode_prefix() == b.onode_prefix() <==> (a.pool() == b.pool() && a.shard() == b.shard()
            && a.crush() == b.crush() && a.random(true) == b.random(true) && a.shadow()
            == b.shadow() && a.metadata() == b.metadata() && a.snap() == b.snap()
            && a.local_snap_id() == b.local_snap_id()),
{
    let qa = a.onode_prefix();
    let qb = b.onode_prefix();
    lemma_onode_prefix(a, true);
    lemma_onode_prefix(b, true);
    if a.pool() == b.pool() && a.shard() == b.shard() && a.crush() == b.crush() && a.random(true)
        == b.random(true) && a.shadow() == b.shadow() && a.metadata() == b.metadata() && a.snap()
        == b.snap() && a.local_snap_id() == b.local_snap_id() {
        lemma_updates_of_joined(a, false);
        lemma_updates_of_joined(b, false);
        lemma_fields_of_joined(a);
        lemma_fields_of_joined(b);
        lemma_bit_rules();
        assert forall|j: int| 0 <= j < 128 implies bit(qa@, j) == bit(qb@, j) by {
            let f = if j >= 120 {
                Field::Pool
            } else if j >= 112 {
                Field::Shard
            } else if j >= 80 {
                Field::Crush
            } else if j >= 47 {
                Field::ShadowedRandom
            } else if j >= 46 {
                Field::Shadow
            } else if j >= 45 {
                Field::Metadata
            } else if j >= 44 {
                Field::Snap
            } else {
                Field::LocalSnapId
            };
            if j >= 12 {
                lemma_flag_contents(a);
                lemma_flag_contents(b);
                assert(f.of(a@) == f.of(b@));
                assert(bit(f.of(a@), j - f.descriptor().offset) == bit(a@, j));
                assert(bit(f.of(b@), j - f.descriptor().offset) == bit(b@, j));
            }
        }
        lemma_bits_equal(qa@, qb@);
        lemma_joined_is_one_to_one(qa, qb);
    }
}

/// A one-bit field holds 0 or 1.
pub proof fn lemma_flag_contents(a: Laddr)
    ensures
        Field::Shadow.of(a@) == flag_bit(a.shadow()),
        Field::Metadata.of(a@) == flag_bit(a.metadata()),
        Field::Snap.of(a@) == flag_bit(a.snap()),
{
    lemma_fields_of_joined(a);
    lemma_get_bounded(Field::Shadow.descriptor(), a@);
    lemma_get_bounded(Field::Metadata.descriptor(), a@);
    lemma_get_bounded(Field::Snap.descriptor(), a@);
    assert(low_ones(1usize) == 1u128) by (bit_vector);
}

/// The joined word that holds the given contents in the fields of the
/// given mode.  Where the shadow flag is not in use, its bit belongs to the
/// random field and `shadow` is left out.
pub open spec fn assembled(
    pool: u128,
    shard: u128,
    crush: u128,
    random: u128,
    shadow: u128,
    metadata: u128,
    snap: u128,
    local_snap_id: u128,
    block_offset: u128,
    has_shadow: bool,
) -> u128 {
    (pool << 120usize) | (shard << 112usize) | (crush << 80usize) | (if has_shadow {
        (random << 47usize) | (shadow << 46usize)
    } else {
        random << 46usize
    }) | (metadata << 45usize) | (snap << 44usize) | (local_snap_id << 12usize) | block_offset
}

/// Reading the fields loses nothing: in either mode the fields, put back at
/// their places, give the joined word, and so the address.
pub proof fn lemma_fields_give_address(a: Laddr, has_shadow: bool)
    ensures
        assembled(
            a.pool() as u128,
            a.shard() as u128,
            a.crush() as u128,
            a.random(has_shadow) as u128,
            flag_bit(a.shadow()),
            flag_bit(a.metadata()),
            flag_bit(a.snap()),
            a.local_snap_id() as u128,
            a.block_offset() as u128,
            has_shadow,
        ) == a@,
{
    lemma_fields_of_joined(a);
    lemma_flag_contents(a);
    lemma_bit_rules();
    lemma_bits_equal(
        assembled(
            Field::Pool.of(a@),
            Field::Shard.of(a@),
            Field::Crush.of(a@),
            random_field(has_shadow).of(a@),
            Field::Shadow.of(a@),
            Field::Metadata.of(a@),
            Field::Snap.of(a@),
            Field::LocalSnapId.of(a@),
            Field::Offset.of(a@),
            has_shadow,
        ),
        a@,
    );
}

/// The address as a literal: `high` in hexadecimal, then `low` in exactly
/// 16 hexadecimal digits.
pub open spec fn literal_text(a: Laddr) -> Seq<char> {
    hex_text(a.high as nat) + fixed_text(a.low as nat, 16, 16)
}

/// The address as a literal.
pub fn literal_string(a: Laddr) -> (s: String)
    ensures
        s@ == literal_text(a),
{
    let mut s = String::new();
    push_number(&mut s, a.high as u128, 16);
    push_fixed(&mut s, a.low as u128, 16, 16);
    s
}

/// The rows that an address is shown as in the given mode: name and text of
/// each property, in this order.  The literal, the hash, the random field
/// and the offset in bytes are in hexadecimal, identifiers in decimal, flags
/// as `true` or `false`.
pub open spec fn rows_of(a: Laddr, has_shadow: bool) -> Seq<(Seq<char>, Seq<char>)> {
    seq![
        ("laddr"@, literal_text(a)),
        ("pool"@, dec_text(a.pool() as nat)),
        ("shard"@, dec_text(a.shard() as nat)),
        ("crush"@, hex_text(a.crush() as nat)),
        ("random"@, hex_text(a.random(has_shadow) as nat)),
        ("shadow"@, flag_text(a.shadow())),
        ("metadata"@, flag_text(a.metadata())),
        ("snap"@, flag_text(a.snap())),
        ("local_snap_id"@, dec_text(a.local_snap_id() as nat)),
        ("offset"@, hex_text(a.offset() as nat)),
    ]
}

/// Reads every field of `a` in the given mode and gives the ten rows to
/// show.
pub fn build_laddr_rows(a: Laddr, has_shadow: bool) -> (rows: Vec<LaddrRow>)
    ensures
        row_texts(rows@) == rows_of(a, has_shadow),
{
    let mut rows: Vec<LaddrRow> = Vec::new();
    rows.push(LaddrRow::new("laddr", literal_string(a)));
    rows.push(LaddrRow::new("pool", dec_string(a.pool() as u128)));
    rows.push(LaddrRow::new("shard", dec_string(a.shard() as u128)));
    rows.push(LaddrRow::new("crush", hex_string(a.crush() as u128)));
    rows.push(LaddrRow::new("random", hex_string(a.random(has_shadow) as u128)));
    rows.push(LaddrRow::new("shadow", flag_string(a.shadow())));
    rows.push(LaddrRow::new("metadata", flag_string(a.metadata())));
    rows.push(LaddrRow::new("snap", flag_string(a.snap())));
    rows.push(LaddrRow::new("local_snap_id", dec_string(a.local_snap_id() as u128)));
    rows.push(LaddrRow::new("offset", hex_string(a.offset() as u128)));
    assert(row_texts(rows@) =~= rows_of(a, has_shadow));
    rows
}

/// The address whose joined word is `word`.
pub open spec fn spec_split(word: u128) -> Laddr {
    Laddr { low: (word & 0xffff_ffff_ffff_ffff) as u64, high: (word >> 64usize) as u64 }
}

proof fn halves_of_word(word: u128)
    by (bit_vector)
    ensures
        word & 0xffff_ffff_ffff_ffff <= 0xffff_ffff_ffff_ffff,
        word >> 64usize <= 0xffff_ffff_ffff_ffff,
        joined((word & 0xffff_ffff_ffff_ffff) as u64, (word >> 64usize) as u64) == word,
{
}

/// Cuts a 128-bit word in its two halves.
#[verifier::when_used_as_spec(spec_split)]
pub fn split(word: u128) -> (a: Laddr)
    ensures
        a == spec_split(word),
        a@ == word,
{
    proof {
        halves_of_word(word);
    }
    Laddr { low: (word & 0xffff_ffff_ffff_ffff) as u64, high: (word >> 64) as u64 }
}

/// Whether `s` begins with `0x`.
pub open spec fn has_hex_prefix(s: Seq<char>) -> bool {
    s.len() >= 2 && s[0] == '0' && s[1] == 'x'
}

/// Where the decimal digits of `high` begin in a text of the form
/// `low = <digits>, high = <digits>`.
pub open spec fn high_digits_from(s: Seq<char>) -> int {
    digits_end(s, 6) + 9
}

/// Whether `s` has the form `low = <digits>, high = <digits>`, with one
/// decimal digit or more at each place and nothing before, between or after.
pub open spec fn has_halves_form(s: Seq<char>) -> bool {
    &&& s.len() >= 6
    &&& s.subrange(0, 6) == "low = "@
    &&& digits_end(s, 6) > 6
    &&& high_digits_from(s) < s.len()
    &&& s.subrange(digits_end(s, 6), high_digits_from(s)) == ", high = "@
    &&& digits_end(s, high_digits_from(s)) == s.len()
}

/// What a text means as an address.  A text that begins with `0x` is a
/// hexadecimal literal of the joined word.  A text of the form
/// `low = <digits>, high = <digits>` gives the two halves in decimal.  Any
/// other text is malformed, and a number too large for its place overflows.
pub open spec fn literal_meaning(s: Seq<char>) -> Result<Laddr, LaddrError> {
    if has_hex_prefix(s) {
        let digits = s.subrange(2, s.len() as int);
        if !is_number_text(digits, 16) {
            Err(LaddrError::MalformedLiteral)
        } else if number_value(digits, 16) > u128::MAX {
            Err(LaddrError::NumericOverflow)
        } else {
            Ok(spec_split(number_value(digits, 16) as u128))
        }
    } else if has_halves_form(s) {
        let low = number_value(s.subrange(6, digits_end(s, 6)), 10);
        let high = number_value(s.subrange(high_digits_from(s), s.len() as int), 10);
        if low > u64::MAX || high > u64::MAX {
            Err(LaddrError::NumericOverflow)
        } else {
            Ok(Laddr { low: low as u64, high: high as u64 })
        }
    } else {
        Err(LaddrError::MalformedLiteral)
    }
}

/// Reads an address from text: a hexadecimal literal after `0x`, or the two
/// halves in the form `low = <decimal>, high = <decimal>`.
pub fn parse_laddr(s: &str) -> (r: Result<Laddr, LaddrError>)
    ensures
        r == literal_meaning(s@),
{
    proof {
        reveal_strlit("0x");
        reveal_strlit("low = ");
        reveal_strlit(", high = ");
    }
    let len = s.unicode_len();
    if has_literal_at(s, 0, "0x") {
        assert("0x"@ =~= seq!['0', 'x']);
        assert(s@.subrange(0, 2)[0] == s@[0] && s@.subrange(0, 2)[1] == s@[1]);
        return match parse_number(s, 2, len, 16, u128::MAX) {
            Ok(word) => Ok(split(word)),
            Err(e) => Err(e),
        };
    }
    assert(!has_hex_prefix(s@)) by {
        if has_hex_prefix(s@) {
            assert(s@.subrange(0, 2) =~= "0x"@);
        }
    }
    if !has_literal_at(s, 0, "low = ") {
        return Err(LaddrError::MalformedLiteral);
    }
    let low_end = scan_digits(s, 6);
    if low_end == 6 || !has_literal_at(s, low_end, ", high = ") {
        return Err(LaddrError::MalformedLiteral);
    }
    let high_from = low_end + 9;
    if high_from == len || scan_digits(s, high_from) != len {
        return Err(LaddrError::MalformedLiteral);
    }
    assert(has_halves_form(s@));
    let low = match parse_number(s, 6, low_end, 10, 0xffff_ffff_ffff_ffff) {
        Ok(low) => low,
        Err(e) => {
            return Err(e);
        },
    };
    let high = match parse_number(s, high_from, len, 10, 0xffff_ffff_ffff_ffff) {
        Ok(high) => high,
        Err(e) => {
            return Err(e);
        },
    };
    Ok(Laddr { low: low as u64, high: high as u64 })
}

proof fn joined_is_a_sum(low: u64, high: u64)
    by (bit_vector)
    ensures
        joined(low, high) == high * 0x1_0000_0000_0000_0000 + low,
{
}

/// The joined word is `high` times 2^64 plus `low`.
pub proof fn lemma_joined_value(a: Laddr)
    ensures
        a@ == a.high * 0x1_0000_0000_0000_0000 + a.low,
{
    joined_is_a_sum(a.low, a.high);
}

/// The literal of an address spells its joined word in hexadecimal, and
/// after `0x` it is read back as the same address.
pub proof fn lemma_literal_round_trip(a: Laddr)
    ensures
        is_number_text(literal_text(a), 16),
        number_value(literal_text(a), 16) == a@,
        literal_meaning("0x"@ + literal_text(a)) == Ok::<Laddr, LaddrError>(a),
{
    let first = hex_text(a.high as nat);
    let second = fixed_text(a.low as nat, 16, 16);
    let text = literal_text(a);
    lemma_text_round_trip(a.high as nat, 16);
    lemma_fixed_text(a.low as nat, 16, 16);
    lemma_number_value_of_concat(first, second, 16);
    assert(radix_power(16, 16) == 0x1_0000_0000_0000_0000) by {
        reveal_with_fuel(radix_power, 17);
    }
    lemma_joined_value(a);
    let scale = radix_power(16, second.len());
    let upper = number_value(first, 16);
    assert(upper * scale == a.high * 0x1_0000_0000_0000_0000) by (nonlinear_arith)
        requires
            upper == a.high,
            scale == 0x1_0000_0000_0000_0000,
    ;
    assert(number_value(text, 16) == a@);
    assert forall|i: int| 0 <= i < text.len() implies (#[trigger] digit_value(text[i], 16))
        is Some by {
        if i < first.len() {
            assert(text[i] == first[i]);
        } else {
            assert(text[i] == second[i - first.len()]);
        }
    }
    let s = "0x"@ + text;
    reveal_strlit("0x");
    assert(s.subrange(2, s.len() as int) =~= text);
    lemma_joined_is_one_to_one(spec_split(a@), a);
    halves_of_word(a@);
}

} // verus!
