//! The 128-bit layout whose object content is split at a width that the
//! caller chooses.
//!
//! From the top bit down: upgrade (1 bit), pool (12), shard (8), reverse
//! hash (32), local object id (27), metadata flag (1), object content (47).
//! The object content holds the local clone id above the block offset; the
//! block offset takes the low `offset_bits` bits, the clone id the rest.

use crate::bitfield::{
    bit, lemma_bit_rules, lemma_bits_equal, lemma_get_value, lemma_holds_bits,
    lemma_masks_disjoint, lemma_split, low_ones, FieldSpec,
};
use crate::error::LaddrError;
use crate::row::{row_texts, LaddrRow};
use crate::text::{
    dec_string, dec_text, flag_string, flag_text, hex_string, hex_text, is_number_text,
    lemma_hex_text_is_plain, number_value, parse_number,
};
use vstd::arithmetic::div_mod::{lemma_mod_bound, lemma_mod_breakdown};
use vstd::arithmetic::power2::{lemma2_to64, lemma_pow2_adds, lemma_pow2_pos, pow2};
use vstd::prelude::*;

verus! {

/// Width of the object content.
pub const OBJECT_CONTENT_BITS: usize = 47;

/// The width of the block offset where none is asked for.
pub const DEFAULT_OFFSET_BITS: usize = 15;

/// A block is 2^12 bytes.
pub const BLOCK_SHIFT: usize = 12;

/// The fields whose place is fixed.  Together they partition the address.
#[derive(Clone, Copy, Debug, PartialEq, Eq, Structural)]
pub enum Field {
    Upgrade,
    Pool,
    Shard,
    ReverseHash,
    LocalObjectId,
    IsMetadata,
    ObjectContent,
}

impl Field {
    /// The field's place as a value for contracts.
    pub open spec fn spec_descriptor(self) -> FieldSpec {
        match self {
            Field::Upgrade => FieldSpec { name: "upgrade", offset: 127, length: 1 },
            Field::Pool => FieldSpec { name: "pool", offset: 115, length: 12 },
            Field::Shard => FieldSpec { name: "shard", offset: 107, length: 8 },
            Field::ReverseHash => FieldSpec { name: "reverse_hash", offset: 75, length: 32 },
            Field::LocalObjectId => FieldSpec { name: "local_object_id", offset: 48, length: 27 },
            Field::IsMetadata => FieldSpec { name: "is_metadata", offset: 47, length: 1 },
            Field::ObjectContent => FieldSpec { name: "object_content", offset: 0, length: 47 },
        }
    }

    /// Where the field lies in the address.
    #[verifier::when_used_as_spec(spec_descriptor)]
    pub fn descriptor(self) -> (f: FieldSpec)
        ensures
            f == self.spec_descriptor(),
            f.wf(),
    {
        match self {
            Field::Upgrade => FieldSpec::new("upgrade", 1, 127),
            Field::Pool => FieldSpec::new("pool", 12, 115),
            Field::Shard => FieldSpec::new("shard", 8, 107),
            Field::ReverseHash => FieldSpec::new("reverse_hash", 32, 75),
            Field::LocalObjectId => FieldSpec::new("local_object_id", 27, 48),
            Field::IsMetadata => FieldSpec::new("is_metadata", 1, 47),
            Field::ObjectContent => FieldSpec::new("object_content", 47, 0),
        }
    }

    /// The field's content in `laddr`.
    pub open spec fn of(self, laddr: u128) -> u128 {
        self.spec_descriptor().spec_get(laddr)
    }
}

/// The block offset's place when it is `offset_bits` wide: the low end of
/// the object content.
pub open spec fn offset_field(offset_bits: usize) -> FieldSpec {
    FieldSpec { name: "offset", offset: 0, length: offset_bits }
}

/// The local clone id's place when the block offset is `offset_bits` wide:
/// what is left of the object content above the block offset.
pub open spec fn local_clone_id_field(offset_bits: usize) -> FieldSpec {
    FieldSpec {
        name: "local_clone_id",
        offset: offset_bits,
        length: (47 - offset_bits) as usize,
    }
}

/// Splits the object content into the local clone id and the block offset,
/// the latter `offset_bits` wide.  A width above 47 is rejected; for any
/// other the two fields' widths add up to 47.
pub fn split_content(offset_bits: usize) -> (r: Result<(FieldSpec, FieldSpec), LaddrError>)
    ensures
        match r {
            Ok((clone_id, offset)) => {
                &&& offset_bits <= 47
                &&& clone_id == local_clone_id_field(offset_bits)
                &&& offset == offset_field(offset_bits)
                &&& clone_id.wf()
                &&& offset.wf()
                &&& clone_id.length + offset.length == 47
            },
            Err(e) => offset_bits > 47 && e == (LaddrError::InvalidOffsetBits { offset_bits }),
        },
{
    if offset_bits > OBJECT_CONTENT_BITS {
        return Err(LaddrError::InvalidOffsetBits { offset_bits });
    }
    let clone_id = FieldSpec::new(
        "local_clone_id",
        OBJECT_CONTENT_BITS - offset_bits,
        offset_bits,
    );
    let offset = FieldSpec::new("offset", offset_bits, 0);
    Ok((clone_id, offset))
}

/// What an address decodes to.  `block_offset` is the offset field as it
/// stands in the address, in blocks; `offset` is the same in bytes.
#[derive(Clone, Copy, Debug, PartialEq, Eq, Structural)]
pub struct Decoded {
    pub laddr: u128,
    pub upgrade: bool,
    pub pool: u128,
    pub shard: u128,
    pub reverse_hash: u128,
    pub local_object_id: u128,
    pub is_metadata: bool,
    pub object_content: u128,
    pub local_clone_id: u128,
    pub block_offset: u128,
    pub offset: u128,
}

/// The decoding of `laddr` when the block offset is `offset_bits` wide.
pub open spec fn decoded(laddr: u128, offset_bits: usize) -> Decoded {
    Decoded {
        laddr,
        upgrade: Field::Upgrade.of(laddr) == 1,
        pool: Field::Pool.of(laddr),
        shard: Field::Shard.of(laddr),
        reverse_hash: Field::ReverseHash.of(laddr),
        local_object_id: Field::LocalObjectId.of(laddr),
        is_metadata: Field::IsMetadata.of(laddr) == 1,
        object_content: Field::ObjectContent.of(laddr),
        local_clone_id: local_clone_id_field(offset_bits).spec_get(laddr),
        block_offset: offset_field(offset_bits).spec_get(laddr),
        offset: offset_field(offset_bits).spec_get(laddr) << 12usize,
    }
}

proof fn shift_is_scaling(blocks: u128)
    by (bit_vector)
    requires
        blocks < 0x8000_0000_0000,
    ensures
        blocks << 12usize == blocks * 4096,
        (blocks << 12usize) % 4096 == 0,
{
}

/// The offset in bytes is the block offset times 4096, whatever the address
/// and the split.
pub proof fn lemma_offset_in_bytes(laddr: u128, offset_bits: usize)
    requires
        offset_bits <= 47,
    ensures
        decoded(laddr, offset_bits).block_offset < 0x8000_0000_0000,
        decoded(laddr, offset_bits).offset == decoded(laddr, offset_bits).block_offset * 4096,
        decoded(laddr, offset_bits).offset % 4096 == 0,
{
    let whole = Field::ObjectContent.descriptor();
    let blocks = offset_field(offset_bits).spec_get(laddr);
    lemma_bit_rules();
    assert forall|i: int| i >= whole.length implies !bit(blocks, i) by {}
    lemma_holds_bits(whole, blocks);
    assert(low_ones(47usize) == 0x7fff_ffff_ffffu128) by (bit_vector);
    shift_is_scaling(blocks);
}

/// Decodes `laddr` with a block offset of `offset_bits` bits.  The width is
/// checked first: one above 47 is rejected and nothing is decoded.
pub fn decode(laddr: u128, offset_bits: usize) -> (r: Result<Decoded, LaddrError>)
    ensures
        match r {
            Ok(d) => {
                &&& offset_bits <= 47
                &&& d == decoded(laddr, offset_bits)
                &&& d.offset == d.block_offset * 4096
                &&& d.offset % 4096 == 0
            },
            Err(e) => offset_bits > 47 && e == (LaddrError::InvalidOffsetBits { offset_bits }),
        },
{
    let (clone_id, offset) = match split_content(offset_bits) {
        Ok(pair) => pair,
        Err(e) => {
            return Err(e);
        },
    };
    let block_offset = offset.get(laddr);
    proof {
        lemma_offset_in_bytes(laddr, offset_bits);
    }
    Ok(
        Decoded {
            laddr,
            upgrade: Field::Upgrade.descriptor().get(laddr) == 1,
            pool: Field::Pool.descriptor().get(laddr),
            shard: Field::Shard.descriptor().get(laddr),
            reverse_hash: Field::ReverseHash.descriptor().get(laddr),
            local_object_id: Field::LocalObjectId.descriptor().get(laddr),
            is_metadata: Field::IsMetadata.descriptor().get(laddr) == 1,
            object_content: Field::ObjectContent.descriptor().get(laddr),
            local_clone_id: clone_id.get(laddr),
            block_offset,
            offset: block_offset << BLOCK_SHIFT,
        },
    )
}

/// The rows that a decoding is shown as: name and text of each property, in
/// this order.  The address, the hash, the object content and the offset in
/// bytes are in hexadecimal, identifiers in decimal, flags as `true` or
/// `false`.
pub open spec fn rows_of(d: Decoded) -> Seq<(Seq<char>, Seq<char>)> {
    seq![
        ("laddr"@, hex_text(d.laddr as nat)),
        ("upgrade"@, flag_text(d.upgrade)),
        ("pool"@, dec_text(d.pool as nat)),
        ("shard"@, dec_text(d.shard as nat)),
        ("reverse_hash"@, hex_text(d.reverse_hash as nat)),
        ("local_object_id"@, dec_text(d.local_object_id as nat)),
        ("is_metadata"@, flag_text(d.is_metadata)),
        ("object_content"@, hex_text(d.object_content as nat)),
        ("local_clone_id"@, dec_text(d.local_clone_id as nat)),
        ("offset"@, hex_text(d.offset as nat)),
    ]
}

/// The rows of a decoding.
pub fn rows_of_decoded(d: &Decoded) -> (rows: Vec<LaddrRow>)
    ensures
        row_texts(rows@) == rows_of(*d),
{
    let mut rows: Vec<LaddrRow> = Vec::new();
    rows.push(LaddrRow::new("laddr", hex_string(d.laddr)));
    rows.push(LaddrRow::new("upgrade", flag_string(d.upgrade)));
    rows.push(LaddrRow::new("pool", dec_string(d.pool)));
    rows.push(LaddrRow::new("shard", dec_string(d.shard)));
    rows.push(LaddrRow::new("reverse_hash", hex_string(d.reverse_hash)));
    rows.push(LaddrRow::new("local_object_id", dec_string(d.local_object_id)));
    rows.push(LaddrRow::new("is_metadata", flag_string(d.is_metadata)));
    rows.push(LaddrRow::new("object_content", hex_string(d.object_content)));
    rows.push(LaddrRow::new("local_clone_id", dec_string(d.local_clone_id)));
    rows.push(LaddrRow::new("offset", hex_string(d.offset)));
    assert(row_texts(rows@) =~= rows_of(*d));
    rows
}

/// Decodes `laddr` with a block offset of `offset_bits` bits and gives the
/// ten rows to show, or rejects the width.
pub fn build_laddr_rows(laddr: u128, offset_bits: usize) -> (r: Result<Vec<LaddrRow>, LaddrError>)
    ensures
        match r {
            Ok(rows) => offset_bits <= 47 && row_texts(rows@) == rows_of(
                decoded(laddr, offset_bits),
            ),
            Err(e) => offset_bits > 47 && e == (LaddrError::InvalidOffsetBits { offset_bits }),
        },
{
    match decode(laddr, offset_bits) {
        Ok(d) => Ok(rows_of_decoded(&d)),
        Err(e) => Err(e),
    }
}

/// The digits of an address literal: what follows a leading `L`, or else the
/// whole text.
pub open spec fn literal_digits(s: Seq<char>) -> Seq<char> {
    if s.len() >= 1 && s[0] == 'L' {
        s.subrange(1, s.len() as int)
    } else {
        s
    }
}

/// Reads an address literal: hexadecimal digits, which an `L` may precede.
/// Text that is not of that form is malformed; a number that does not fit
/// in 128 bits overflows.
pub fn parse_laddr(s: &str) -> (r: Result<u128, LaddrError>)
    ensures
        match r {
            Ok(laddr) => is_number_text(literal_digits(s@), 16) && number_value(
                literal_digits(s@),
                16,
            ) == laddr,
            Err(LaddrError::MalformedLiteral) => !is_number_text(literal_digits(s@), 16),
            Err(LaddrError::NumericOverflow) => is_number_text(literal_digits(s@), 16)
                && number_value(literal_digits(s@), 16) > u128::MAX,
            Err(LaddrError::InvalidOffsetBits { .. }) => false,
        },
{
    let len = s.unicode_len();
    let start: usize = if len >= 1 && s.get_char(0) == 'L' {
        1
    } else {
        0
    };
    assert(s@.subrange(start as int, len as int) =~= literal_digits(s@));
    parse_number(s, start, len, 16, u128::MAX)
}

/// An address written in hexadecimal is read back as the same address.
pub proof fn lemma_literal_round_trip(laddr: u128)
    ensures
        is_number_text(literal_digits(hex_text(laddr as nat)), 16),
        number_value(literal_digits(hex_text(laddr as nat)), 16) == laddr,
{
    lemma_hex_text_is_plain(laddr as nat);
    assert(literal_digits(hex_text(laddr as nat)) == hex_text(laddr as nat));
}

/// No two of the seven fixed fields share a bit.
pub proof fn lemma_fields_disjoint(a: Field, b: Field)
    requires
        a != b,
    ensures
        a.descriptor().mask() & b.descriptor().mask() == 0,
{
    let fa = a.descriptor();
    let fb = b.descriptor();
    if fa.offset < fb.offset {
        lemma_masks_disjoint(fa, fb);
    } else {
        lemma_masks_disjoint(fb, fa);
    }
}

/// The seven fixed fields leave no bit of the address out.
pub proof fn lemma_fields_cover()
    ensures
        Field::Upgrade.descriptor().mask() | Field::Pool.descriptor().mask()
            | Field::Shard.descriptor().mask() | Field::ReverseHash.descriptor().mask()
            | Field::LocalObjectId.descriptor().mask() | Field::IsMetadata.descriptor().mask()
            | Field::ObjectContent.descriptor().mask() == u128::MAX,
{
    lemma_bit_rules();
    assert(low_ones(128usize) == u128::MAX);
    lemma_bits_equal(
        Field::Upgrade.descriptor().mask() | Field::Pool.descriptor().mask()
            | Field::Shard.descriptor().mask() | Field::ReverseHash.descriptor().mask()
            | Field::LocalObjectId.descriptor().mask() | Field::IsMetadata.descriptor().mask()
            | Field::ObjectContent.descriptor().mask(),
        low_ones(128usize),
    );
}

/// Wherever the object content is split, the local clone id and the block
/// offset share no bit, together cover the object content and nothing else,
/// have widths that add up to 47, and, the clone id's bits followed by the
/// offset's, give back the object content.
pub proof fn lemma_content_split(laddr: u128, offset_bits: usize)
    requires
        offset_bits <= 47,
    ensures
        local_clone_id_field(offset_bits).wf(),
        offset_field(offset_bits).wf(),
        local_clone_id_field(offset_bits).length + offset_field(offset_bits).length == 47,
        local_clone_id_field(offset_bits).mask() & offset_field(offset_bits).mask() == 0,
        local_clone_id_field(offset_bits).mask() | offset_field(offset_bits).mask()
            == Field::ObjectContent.descriptor().mask(),
        (decoded(laddr, offset_bits).local_clone_id << offset_bits) | decoded(
            laddr,
            offset_bits,
        ).block_offset == decoded(laddr, offset_bits).object_content,
{
    lemma_split(
        Field::ObjectContent.descriptor(),
        offset_field(offset_bits),
        local_clone_id_field(offset_bits),
        laddr,
    );
}

/// The split in numbers: the object content is the local clone id times 2
/// to the power of the offset's width, plus the block offset.
pub proof fn lemma_content_split_value(laddr: u128, offset_bits: usize)
    requires
        offset_bits <= 47,
    ensures
        decoded(laddr, offset_bits).object_content == decoded(laddr, offset_bits).local_clone_id
            * pow2(offset_bits as nat) + decoded(laddr, offset_bits).block_offset,
        decoded(laddr, offset_bits).block_offset < pow2(offset_bits as nat),
        decoded(laddr, offset_bits).local_clone_id < pow2((47 - offset_bits) as nat),
{
    let low = pow2(offset_bits as nat);
    let high = pow2((47 - offset_bits) as nat);
    lemma_get_value(Field::ObjectContent.descriptor(), laddr);
    lemma_get_value(offset_field(offset_bits), laddr);
    lemma_get_value(local_clone_id_field(offset_bits), laddr);
    lemma2_to64();
    lemma_pow2_pos(offset_bits as nat);
    lemma_pow2_pos((47 - offset_bits) as nat);
    lemma_pow2_adds(offset_bits as nat, (47 - offset_bits) as nat);
    lemma_mod_breakdown(laddr as int, low as int, high as int);
    lemma_mod_bound(laddr as int, low as int);
    lemma_mod_bound((laddr as int) / (low as int), high as int);
    let d = decoded(laddr, offset_bits);
    let one = pow2(0);
    assert((laddr as nat) / one == laddr as nat) by (nonlinear_arith)
        requires
            one == 1,
    ;
    assert(pow2(47) == low * high);
    assert(d.block_offset == (laddr as nat) % low);
    assert(d.local_clone_id == ((laddr as nat) / low) % high);
    assert(d.object_content == (laddr as nat) % (low * high));
    assert((laddr as nat) % (low * high) == low * (((laddr as nat) / low) % high) + (laddr as nat)
        % low);
    assert(((laddr as nat) / low) % high * low == low * (((laddr as nat) / low) % high))
        by (nonlinear_arith);
}

/// Neither part of the object content shares a bit with a fixed field other
/// than the object content itself.
pub proof fn lemma_split_apart_from(f: Field, offset_bits: usize)
    requires
        offset_bits <= 47,
        f != Field::ObjectContent,
    ensures
        local_clone_id_field(offset_bits).mask() & f.descriptor().mask() == 0,
        offset_field(offset_bits).mask() & f.descriptor().mask() == 0,
{
    lemma_masks_disjoint(local_clone_id_field(offset_bits), f.descriptor());
    lemma_masks_disjoint(offset_field(offset_bits), f.descriptor());
}

/// The word that holds the given contents in the fields, the block offset
/// being `offset_bits` wide.
pub open spec fn assembled(
    upgrade: u128,
    pool: u128,
    shard: u128,
    reverse_hash: u128,
    local_object_id: u128,
    is_metadata: u128,
    local_clone_id: u128,
    block_offset: u128,
    offset_bits: usize,
) -> u128 {
    (upgrade << 127usize) | (pool << 115usize) | (shard << 107usize) | (reverse_hash << 75usize)
        | (local_object_id << 48usize) | (is_metadata << 47usize) | (local_clone_id
        << offset_bits) | block_offset
}

/// Decoding loses nothing: the fields, put back at their places, give the
/// address.
pub proof fn lemma_fields_give_address(laddr: u128, offset_bits: usize)
    requires
        offset_bits <= 47,
    ensures
        assembled(
            Field::Upgrade.of(laddr),
            Field::Pool.of(laddr),
            Field::Shard.of(laddr),
            Field::ReverseHash.of(laddr),
            Field::LocalObjectId.of(laddr),
            Field::IsMetadata.of(laddr),
            decoded(laddr, offset_bits).local_clone_id,
            decoded(laddr, offset_bits).block_offset,
            offset_bits,
        ) == laddr,
{
    lemma_bit_rules();
    lemma_bits_equal(
        assembled(
            Field::Upgrade.of(laddr),
            Field::Pool.of(laddr),
            Field::Shard.of(laddr),
            Field::ReverseHash.of(laddr),
            Field::LocalObjectId.of(laddr),
            Field::IsMetadata.of(laddr),
            decoded(laddr, offset_bits).local_clone_id,
            decoded(laddr, offset_bits).block_offset,
            offset_bits,
        ),
        laddr,
    );
}

/// Contents that fit their fields are read back unchanged from the word
/// assembled of them.
pub proof fn lemma_address_gives_fields(
    upgrade: u128,
    pool: u128,
    shard: u128,
    reverse_hash: u128,
    local_object_id: u128,
    is_metadata: u128,
    local_clone_id: u128,
    block_offset: u128,
    offset_bits: usize,
)
    requires
        offset_bits <= 47,
        Field::Upgrade.descriptor().holds(upgrade),
        Field::Pool.descriptor().holds(pool),
        Field::Shard.descriptor().holds(shard),
        Field::ReverseHash.descriptor().holds(reverse_hash),
        Field::LocalObjectId.descriptor().holds(local_object_id),
        Field::IsMetadata.descriptor().holds(is_metadata),
        local_clone_id_field(offset_bits).holds(local_clone_id),
        offset_field(offset_bits).holds(block_offset),
    ensures
        ({
            let laddr = assembled(
                upgrade,
                pool,
                shard,
                reverse_hash,
                local_object_id,
                is_metadata,
                local_clone_id,
                block_offset,
                offset_bits,
            );
            &&& Field::Upgrade.of(laddr) == upgrade
            &&& Field::Pool.of(laddr) == pool
            &&& Field::Shard.of(laddr) == shard
            &&& Field::ReverseHash.of(laddr) == reverse_hash
            &&& Field::LocalObjectId.of(laddr) == local_object_id
            &&& Field::IsMetadata.of(laddr) == is_metadata
            &&& decoded(laddr, offset_bits).local_clone_id == local_clone_id
            &&& decoded(laddr, offset_bits).block_offset == block_offset
        }),
{
    let laddr = assembled(
        upgrade,
        pool,
        shard,
        reverse_hash,
        local_object_id,
        is_metadata,
        local_clone_id,
        block_offset,
        offset_bits,
    );
    lemma_bit_rules();
    lemma_holds_bits(Field::Upgrade.descriptor(), upgrade);
    lemma_holds_bits(Field::Pool.descriptor(), pool);
    lemma_holds_bits(Field::Shard.descriptor(), shard);
    lemma_holds_bits(Field::ReverseHash.descriptor(), reverse_hash);
    lemma_holds_bits(Field::LocalObjectId.descriptor(), local_object_id);
    lemma_holds_bits(Field::IsMetadata.descriptor(), is_metadata);
    lemma_holds_bits(local_clone_id_field(offset_bits), local_clone_id);
    lemma_holds_bits(offset_field(offset_bits), block_offset);
    lemma_bits_equal(Field::Upgrade.of(laddr), upgrade);
    lemma_bits_equal(Field::Pool.of(laddr), pool);
    lemma_bits_equal(Field::Shard.of(laddr), shard);
    lemma_bits_equal(Field::ReverseHash.of(laddr), reverse_hash);
    lemma_bits_equal(Field::LocalObjectId.of(laddr), local_object_id);
    lemma_bits_equal(Field::IsMetadata.of(laddr), is_metadata);
    lemma_bits_equal(decoded(laddr, offset_bits).local_clone_id, local_clone_id);
    lemma_bits_equal(decoded(laddr, offset_bits).block_offset, block_offset);
}

} // verus!
