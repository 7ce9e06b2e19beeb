//! The 128-bit layout with a zero-prefix short form.
//!
//! From the top bit down: upgrade (1 bit), shard (6), pool (12), reverse
//! hash (16), local object id (42), local clone id (23), metadata flag (1),
//! block offset (27).  The upper 77 bits are the prefix, the lower 51 the
//! object content.  An address whose prefix is zero is a bare content
//! address and decodes to the short form.

use crate::bitfield::{
    bit, bit_at, lemma_bit_rules, lemma_bits_equal, lemma_get_bounded, lemma_holds_bits,
    lemma_masks_disjoint, lemma_zero_bits, low_ones, FieldSpec,
};
use crate::error::LaddrError;
use crate::row::{row_texts, LaddrRow};
use crate::text::{
    dec_string, dec_text, flag_string, flag_text, hex_string, hex_text, is_number_text,
    lemma_hex_text_is_plain, number_value, parse_number, scaled_string, scaled_text,
};
use vstd::prelude::*;

verus! {

/// The bits of the prefix: everything above the object content.
pub const PREFIX_MASK: u128 = 0xffff_ffff_ffff_ffff_fff8_0000_0000_0000;

/// Bytes in a block; the block offset counts blocks.
pub const BLOCK_SIZE: u128 = 4096;

/// The named fields of the layout.  The first eight, from `Upgrade` to
/// `BlockOffset`, partition the address; `ObjectInfo` and `ObjectContent`
/// are regions made of several of them.
#[derive(Clone, Copy, Debug, PartialEq, Eq, Structural)]
pub enum Field {
    Upgrade,
    Shard,
    Pool,
    ReverseHash,
    LocalObjectId,
    LocalCloneId,
    IsMetadata,
    BlockOffset,
    ObjectInfo,
    ObjectContent,
}

impl Field {
    /// The field's place as a value for contracts.
    pub open spec fn spec_descriptor(self) -> FieldSpec {
        match self {
            Field::Upgrade => FieldSpec { name: "upgrade", offset: 127, length: 1 },
            Field::Shard => FieldSpec { name: "shard", offset: 121, length: 6 },
            Field::Pool => FieldSpec { name: "pool", offset: 109, length: 12 },
            Field::ReverseHash => FieldSpec { name: "reverse_hash", offset: 93, length: 16 },
            Field::LocalObjectId => FieldSpec { name: "local_object_id", offset: 51, length: 42 },
            Field::LocalCloneId => FieldSpec { name: "local_clone_id", offset: 28, length: 23 },
            Field::IsMetadata => FieldSpec { name: "is_metadata", offset: 27, length: 1 },
            Field::BlockOffset => FieldSpec { name: "block_offset", offset: 0, length: 27 },
            Field::ObjectInfo => FieldSpec { name: "object_info", offset: 51, length: 76 },
            Field::ObjectContent => FieldSpec { name: "object_content", offset: 0, length: 51 },
        }
    }

    /// Where the field lies in the address.
    #[verifier::when_used_as_spec(spec_descriptor)]
    pub fn descriptor(self) -> (f: FieldSpec)
        ensures
            f == self.spec_descriptor(),
            f.wf(),
    {
        match self {
            Field::Upgrade => FieldSpec::new("upgrade", 1, 127),
            Field::Shard => FieldSpec::new("shard", 6, 121),
            Field::Pool => FieldSpec::new("pool", 12, 109),
            Field::ReverseHash => FieldSpec::new("reverse_hash", 16, 93),
            Field::LocalObjectId => FieldSpec::new("local_object_id", 42, 51),
            Field::LocalCloneId => FieldSpec::new("local_clone_id", 23, 28),
            Field::IsMetadata => FieldSpec::new("is_metadata", 1, 27),
            Field::BlockOffset => FieldSpec::new("block_offset", 27, 0),
            Field::ObjectInfo => FieldSpec::new("object_info", 76, 51),
            Field::ObjectContent => FieldSpec::new("object_content", 51, 0),
        }
    }

    /// Whether the field is one of the eight that partition the address.
    pub open spec fn is_part(self) -> bool {
        self != Field::ObjectInfo && self != Field::ObjectContent
    }

    /// Whether the field is one of the five that make up the prefix.
    pub open spec fn in_prefix(self) -> bool {
        self == Field::Upgrade || self == Field::Shard || self == Field::Pool || self
            == Field::ReverseHash || self == Field::LocalObjectId
    }

    /// The field's content in `laddr`.
    pub open spec fn of(self, laddr: u128) -> u128 {
        self.spec_descriptor().spec_get(laddr)
    }
}

/// What an address decodes to.  A bare content address has the short form;
/// any other has the full form, in which every field is present.
#[derive(Clone, Copy, Debug, PartialEq, Eq, Structural)]
pub enum Decoded {
    ShortForm { laddr: u128, object_content: u128 },
    FullForm {
        laddr: u128,
        prefix: u128,
        upgrade: bool,
        shard: u128,
        pool: u128,
        reverse_hash: u128,
        local_object_id: u128,
        local_clone_id: u128,
        is_metadata: bool,
        block_offset: u128,
        byte_offset: u128,
        object_content: u128,
    },
}

/// The decoding of `laddr`.
pub open spec fn decoded(laddr: u128) -> Decoded {
    if laddr & PREFIX_MASK == 0 {
        Decoded::ShortForm { laddr, object_content: Field::ObjectContent.of(laddr) }
    } else {
        Decoded::FullForm {
            laddr,
            prefix: laddr & PREFIX_MASK,
            upgrade: Field::Upgrade.of(laddr) == 1,
            shard: Field::Shard.of(laddr),
            pool: Field::Pool.of(laddr),
            reverse_hash: Field::ReverseHash.of(laddr),
            local_object_id: Field::LocalObjectId.of(laddr),
            local_clone_id: Field::LocalCloneId.of(laddr),
            is_metadata: Field::IsMetadata.of(laddr) == 1,
            block_offset: Field::BlockOffset.of(laddr),
            byte_offset: (Field::BlockOffset.of(laddr) * 4096) as u128,
            object_content: Field::ObjectContent.of(laddr),
        }
    }
}

/// The block offset is below 2^27, and in the full form the byte offset is
/// the block offset times 4096, hence a multiple of 4096.
pub proof fn lemma_byte_offset(laddr: u128)
    ensures
        Field::BlockOffset.of(laddr) < 0x800_0000,
        decoded(laddr) matches Decoded::FullForm { block_offset, byte_offset, .. } ==> byte_offset
            == block_offset * 4096 && byte_offset % 4096 == 0,
{
    lemma_get_bounded(Field::BlockOffset.descriptor(), laddr);
    assert(low_ones(27usize) == 0x7ff_ffffu128) by (bit_vector);
}

/// Decodes `laddr`: the short form if its prefix is zero, the full form
/// otherwise.  In the full form the byte offset is the block offset times
/// 4096.
pub fn decode(laddr: u128) -> (d: Decoded)
    ensures
        d == decoded(laddr),
        d is ShortForm <==> laddr & PREFIX_MASK == 0,
        d matches Decoded::FullForm { block_offset, byte_offset, .. } ==> byte_offset
            == block_offset * 4096 && byte_offset % 4096 == 0,
{
    let prefix = laddr & PREFIX_MASK;
    let object_content = Field::ObjectContent.descriptor().get(laddr);
    if prefix == 0 {
        Decoded::ShortForm { laddr, object_content }
    } else {
        let block_offset = Field::BlockOffset.descriptor().get(laddr);
        proof {
            lemma_byte_offset(laddr);
        }
        Decoded::FullForm {
            laddr,
            prefix,
            upgrade: Field::Upgrade.descriptor().get(laddr) == 1,
            shard: Field::Shard.descriptor().get(laddr),
            pool: Field::Pool.descriptor().get(laddr),
            reverse_hash: Field::ReverseHash.descriptor().get(laddr),
            local_object_id: Field::LocalObjectId.descriptor().get(laddr),
            local_clone_id: Field::LocalCloneId.descriptor().get(laddr),
            is_metadata: Field::IsMetadata.descriptor().get(laddr) == 1,
            block_offset,
            byte_offset: block_offset * BLOCK_SIZE,
            object_content,
        }
    }
}

/// The rows that a decoding is shown as: name and text of each property, in
/// this order.  Hashes and contents are in hexadecimal, identifiers in
/// decimal, flags as `true` or `false`; the block offset comes twice, in
/// hexadecimal and in decimal, each time with its value in bytes.  In either
/// form the last row is the object content.
pub open spec fn rows_of(d: Decoded) -> Seq<(Seq<char>, Seq<char>)> {
    match d {
        Decoded::ShortForm { laddr, object_content } => seq![
            ("laddr"@, hex_text(laddr as nat)),
            ("object_content"@, hex_text(object_content as nat)),
        ],
        Decoded::FullForm {
            laddr,
            prefix,
            upgrade,
            shard,
            pool,
            reverse_hash,
            local_object_id,
            local_clone_id,
            is_metadata,
            block_offset,
            byte_offset,
            object_content,
        } => seq![
            ("laddr"@, hex_text(laddr as nat)),
            ("prefix"@, hex_text(prefix as nat)),
            ("upgrade"@, flag_text(upgrade)),
            ("shard"@, dec_text(shard as nat)),
            ("pool"@, dec_text(pool as nat)),
            ("reverse_hash"@, hex_text(reverse_hash as nat)),
            ("local_object_id"@, dec_text(local_object_id as nat)),
            ("local_clone_id"@, dec_text(local_clone_id as nat)),
            ("is_metadata"@, flag_text(is_metadata)),
            ("offset_16"@, scaled_text(block_offset as nat, byte_offset as nat, 16)),
            ("offset_10"@, scaled_text(block_offset as nat, byte_offset as nat, 10)),
            ("object_content"@, hex_text(object_content as nat)),
        ],
    }
}

/// The rows of a decoding.
pub fn rows_of_decoded(d: &Decoded) -> (rows: Vec<LaddrRow>)
    ensures
        row_texts(rows@) == rows_of(*d),
{
    let mut rows: Vec<LaddrRow> = Vec::new();
    match d {
        Decoded::ShortForm { laddr, object_content } => {
            rows.push(LaddrRow::new("laddr", hex_string(*laddr)));
            rows.push(LaddrRow::new("object_content", hex_string(*object_content)));
        },
        Decoded::FullForm {
            laddr,
            prefix,
            upgrade,
            shard,
            pool,
            reverse_hash,
            local_object_id,
            local_clone_id,
            is_metadata,
            block_offset,
            byte_offset,
            object_content,
        } => {
            rows.push(LaddrRow::new("laddr", hex_string(*laddr)));
            rows.push(LaddrRow::new("prefix", hex_string(*prefix)));
            rows.push(LaddrRow::new("upgrade", flag_string(*upgrade)));
            rows.push(LaddrRow::new("shard", dec_string(*shard)));
            rows.push(LaddrRow::new("pool", dec_string(*pool)));
            rows.push(LaddrRow::new("reverse_hash", hex_string(*reverse_hash)));
            rows.push(LaddrRow::new("local_object_id", dec_string(*local_object_id)));
            rows.push(LaddrRow::new("local_clone_id", dec_string(*local_clone_id)));
            rows.push(LaddrRow::new("is_metadata", flag_string(*is_metadata)));
            rows.push(LaddrRow::new("offset_16", scaled_string(*block_offset, *byte_offset, 16)));
            rows.push(LaddrRow::new("offset_10", scaled_string(*block_offset, *byte_offset, 10)));
            rows.push(LaddrRow::new("object_content", hex_string(*object_content)));
        },
    }
    assert(row_texts(rows@) =~= rows_of(*d));
    rows
}

/// Decodes `laddr` and gives the rows to show: two for a bare content
/// address, twelve for any other.  Whichever form the address has, the
/// object content is shown, in the last row and as the same text.
pub fn build_laddr_rows(laddr: u128) -> (rows: Vec<LaddrRow>)
    ensures
        row_texts(rows@) == rows_of(decoded(laddr)),
        rows@.len() == if laddr & PREFIX_MASK == 0 { 2int } else { 12int },
        rows@.last()@ == ("object_content"@, hex_text(Field::ObjectContent.of(laddr) as nat)),
{
    let d = decode(laddr);
    let rows = rows_of_decoded(&d);
    assert(row_texts(rows@).len() == rows@.len());
    assert(row_texts(rows@).last() == rows@.last()@);
    rows
}

/// Both forms show the object content, in the last row and as the same
/// text: an address and its object content taken as a bare address end in
/// the same row.
pub proof fn lemma_object_content_row(laddr: u128)
    ensures
        rows_of(decoded(laddr)).last() == ("object_content"@, hex_text(
            Field::ObjectContent.of(laddr) as nat,
        )),
        rows_of(decoded(laddr)).last() == rows_of(decoded(Field::ObjectContent.of(laddr))).last(),
        rows_of(decoded(laddr)).len() == if decoded(laddr) is ShortForm {
            2int
        } else {
            12int
        },
{
    let content = Field::ObjectContent.of(laddr);
    lemma_bit_rules();
    lemma_bits_equal(Field::ObjectContent.of(content), content);
}

/// The digits of an address literal: what follows a leading `L`, or else a
/// leading `0x`, or else the whole text.
pub open spec fn literal_digits(s: Seq<char>) -> Seq<char> {
    if s.len() >= 1 && s[0] == 'L' {
        s.subrange(1, s.len() as int)
    } else if s.len() >= 2 && s[0] == '0' && s[1] == 'x' {
        s.subrange(2, s.len() as int)
    } else {
        s
    }
}

/// Reads an address literal: hexadecimal digits, which an `L` or a `0x` may
/// precede.  Text that is not of that form is malformed; a number that does
/// not fit in 128 bits overflows.
pub fn parse_laddr(s: &str) -> (r: Result<u128, LaddrError>)
    ensures
        match r {
            Ok(laddr) => is_number_text(literal_digits(s@), 16) && number_value(
                literal_digits(s@),
                16,
            ) == laddr,
            Err(LaddrError::MalformedLiteral) => !is_number_text(literal_digits(s@), 16),
            Err(LaddrError::NumericOverflow) => is_number_text(literal_digits(s@), 16)
                && number_value(literal_digits(s@), 16) > u128::MAX,
            Err(LaddrError::InvalidOffsetBits { .. }) => false,
        },
{
    let len = s.unicode_len();
    let start: usize = if len >= 1 && s.get_char(0) == 'L' {
        1
    } else if len >= 2 && s.get_char(0) == '0' && s.get_char(1) == 'x' {
        2
    } else {
        0
    };
    assert(s@.subrange(start as int, len as int) =~= literal_digits(s@));
    parse_number(s, start, len, 16, u128::MAX)
}

proof fn prefix_mask_bit(j: u32)
    by (bit_vector)
    requires
        j < 128,
    ensures
        bit_at(PREFIX_MASK, j) == (j >= 51),
{
}

/// The prefix mask has exactly the bits from 51 up set.
pub proof fn lemma_prefix_mask_bits()
    ensures
        forall|j: int| #[trigger] bit(PREFIX_MASK, j) == (51 <= j < 128),
{
    assert forall|j: int| #[trigger] bit(PREFIX_MASK, j) == (51 <= j < 128) by {
        if 0 <= j < 128 {
            prefix_mask_bit(j as u32);
        }
    }
}

/// An address written in hexadecimal is read back as the same address.
pub proof fn lemma_literal_round_trip(laddr: u128)
    ensures
        is_number_text(literal_digits(hex_text(laddr as nat)), 16),
        number_value(literal_digits(hex_text(laddr as nat)), 16) == laddr,
{
    lemma_hex_text_is_plain(laddr as nat);
    assert(literal_digits(hex_text(laddr as nat)) == hex_text(laddr as nat));
}

/// No two of the eight fields that partition the address share a bit.
pub proof fn lemma_fields_disjoint(a: Field, b: Field)
    requires
        a.is_part(),
        b.is_part(),
        a != b,
    ensures
        a.descriptor().mask() & b.descriptor().mask() == 0,
{
    let fa = a.descriptor();
    let fb = b.descriptor();
    if fa.offset < fb.offset {
        lemma_masks_disjoint(fa, fb);
    } else {
        lemma_masks_disjoint(fb, fa);
    }
}

/// The eight fields leave no bit of the address out.
pub proof fn lemma_fields_cover()
    ensures
        Field::Upgrade.descriptor().mask() | Field::Shard.descriptor().mask()
            | Field::Pool.descriptor().mask() | Field::ReverseHash.descriptor().mask()
            | Field::LocalObjectId.descriptor().mask() | Field::LocalCloneId.descriptor().mask()
            | Field::IsMetadata.descriptor().mask() | Field::BlockOffset.descriptor().mask()
            == u128::MAX,
{
    lemma_bit_rules();
    assert(low_ones(128usize) == u128::MAX);
    lemma_bits_equal(
        Field::Upgrade.descriptor().mask() | Field::Shard.descriptor().mask()
            | Field::Pool.descriptor().mask() | Field::ReverseHash.descriptor().mask()
            | Field::LocalObjectId.descriptor().mask() | Field::LocalCloneId.descriptor().mask()
            | Field::IsMetadata.descriptor().mask() | Field::BlockOffset.descriptor().mask(),
        low_ones(128usize),
    );
}

/// The prefix is the upgrade bit and the object info; the object info is
/// shard, pool, reverse hash and local object id; and the prefix is all that
/// the object content is not.
pub proof fn lemma_prefix_mask()
    ensures
        PREFIX_MASK == Field::Upgrade.descriptor().mask() | Field::ObjectInfo.descriptor().mask(),
        Field::ObjectInfo.descriptor().mask() == Field::Shard.descriptor().mask()
            | Field::Pool.descriptor().mask() | Field::ReverseHash.descriptor().mask()
            | Field::LocalObjectId.descriptor().mask(),
        PREFIX_MASK == !Field::ObjectContent.descriptor().mask(),
{
    lemma_bit_rules();
    lemma_prefix_mask_bits();
    lemma_bits_equal(
        PREFIX_MASK,
        Field::Upgrade.descriptor().mask() | Field::ObjectInfo.descriptor().mask(),
    );
    lemma_bits_equal(
        Field::ObjectInfo.descriptor().mask(),
        Field::Shard.descriptor().mask() | Field::Pool.descriptor().mask()
            | Field::ReverseHash.descriptor().mask() | Field::LocalObjectId.descriptor().mask(),
    );
    lemma_bits_equal(PREFIX_MASK, !Field::ObjectContent.descriptor().mask());
}

/// An address has the short form exactly when each of the five prefix fields
/// is zero, which is when the address is its own object content.
pub proof fn lemma_short_form(laddr: u128)
    ensures
        decoded(laddr) is ShortForm <==> (forall|f: Field| f.in_prefix() ==> #[trigger] f.of(laddr)
            == 0),
        decoded(laddr) is ShortForm <==> Field::ObjectContent.of(laddr) == laddr,
{
    lemma_bit_rules();
    lemma_prefix_mask_bits();
    lemma_zero_bits();
    let prefix = laddr & PREFIX_MASK;
    let content = Field::ObjectContent.of(laddr);
    if prefix == 0 {
        assert forall|f: Field| f.in_prefix() implies #[trigger] f.of(laddr) == 0 by {
            assert forall|i: int| 0 <= i < 128 implies bit(f.of(laddr), i) == bit(0, i) by {
                assert(!bit(prefix, f.descriptor().offset + i));
            }
            lemma_bits_equal(f.of(laddr), 0);
        }
        assert forall|j: int| 0 <= j < 128 implies bit(content, j) == bit(laddr, j) by {
            assert(!bit(prefix, j));
        }
        lemma_bits_equal(content, laddr);
    }
    if forall|f: Field| f.in_prefix() ==> #[trigger] f.of(laddr) == 0 {
        assert forall|j: int| 0 <= j < 128 implies bit(prefix, j) == bit(0, j) by {
            let f = if j >= 127 {
                Field::Upgrade
            } else if j >= 121 {
                Field::Shard
            } else if j >= 109 {
                Field::Pool
            } else if j >= 93 {
                Field::ReverseHash
            } else {
                Field::LocalObjectId
            };
            if j >= 51 {
                assert(f.of(laddr) == 0);
                assert(bit(f.of(laddr), j - f.descriptor().offset) == bit(laddr, j));
            }
        }
        lemma_bits_equal(prefix, 0);
    }
    if content == laddr {
        assert forall|j: int| 0 <= j < 128 implies bit(prefix, j) == bit(0, j) by {
            assert(bit(content, j) == bit(laddr, j));
        }
        lemma_bits_equal(prefix, 0);
    }
}

/// The word that holds the given contents in the eight fields.
pub open spec fn assembled(
    upgrade: u128,
    shard: u128,
    pool: u128,
    reverse_hash: u128,
    local_object_id: u128,
    local_clone_id: u128,
    is_metadata: u128,
    block_offset: u128,
) -> u128 {
    (upgrade << 127usize) | (shard << 121usize) | (pool << 109usize) | (reverse_hash << 93usize)
        | (local_object_id << 51usize) | (local_clone_id << 28usize) | (is_metadata << 27usize)
        | block_offset
}

/// Decoding loses nothing: the eight fields, put back at their places, give
/// the address; so do the prefix and the object content; and the object
/// content is the clone id, the metadata flag and the block offset in a row.
pub proof fn lemma_fields_give_address(laddr: u128)
    ensures
        assembled(
            Field::Upgrade.of(laddr),
            Field::Shard.of(laddr),
            Field::Pool.of(laddr),
            Field::ReverseHash.of(laddr),
            Field::LocalObjectId.of(laddr),
            Field::LocalCloneId.of(laddr),
            Field::IsMetadata.of(laddr),
            Field::BlockOffset.of(laddr),
        ) == laddr,
        (laddr & PREFIX_MASK) | Field::ObjectContent.of(laddr) == laddr,
        (Field::LocalCloneId.of(laddr) << 28usize) | (Field::IsMetadata.of(laddr) << 27usize)
            | Field::BlockOffset.of(laddr) == Field::ObjectContent.of(laddr),
{
    lemma_bit_rules();
    lemma_prefix_mask_bits();
    lemma_bits_equal(
        assembled(
            Field::Upgrade.of(laddr),
            Field::Shard.of(laddr),
            Field::Pool.of(laddr),
            Field::ReverseHash.of(laddr),
            Field::LocalObjectId.of(laddr),
            Field::LocalCloneId.of(laddr),
            Field::IsMetadata.of(laddr),
            Field::BlockOffset.of(laddr),
        ),
        laddr,
    );
    lemma_bits_equal((laddr & PREFIX_MASK) | Field::ObjectContent.of(laddr), laddr);
    lemma_bits_equal(
        (Field::LocalCloneId.of(laddr) << 28usize) | (Field::IsMetadata.of(laddr) << 27usize)
            | Field::BlockOffset.of(laddr),
        Field::ObjectContent.of(laddr),
    );
}

/// Contents that fit their fields are read back unchanged from the word
/// assembled of them.
pub proof fn lemma_address_gives_fields(
    upgrade: u128,
    shard: u128,
    pool: u128,
    reverse_hash: u128,
    local_object_id: u128,
    local_clone_id: u128,
    is_metadata: u128,
    block_offset: u128,
)
    requires
        Field::Upgrade.descriptor().holds(upgrade),
        Field::Shard.descriptor().holds(shard),
        Field::Pool.descriptor().holds(pool),
        Field::ReverseHash.descriptor().holds(reverse_hash),
        Field::LocalObjectId.descriptor().holds(local_object_id),
        Field::LocalCloneId.descriptor().holds(local_clone_id),
        Field::IsMetadata.descriptor().holds(is_metadata),
        Field::BlockOffset.descriptor().holds(block_offset),
    ensures
        ({
            let laddr = assembled(
                upgrade,
                shard,
                pool,
                reverse_hash,
                local_object_id,
                local_clone_id,
                is_metadata,
                block_offset,
            );
            &&& Field::Upgrade.of(laddr) == upgrade
            &&& Field::Shard.of(laddr) == shard
            &&& Field::Pool.of(laddr) == pool
            &&& Field::ReverseHash.of(laddr) == reverse_hash
            &&& Field::LocalObjectId.of(laddr) == local_object_id
            &&& Field::LocalCloneId.of(laddr) == local_clone_id
            &&& Field::IsMetadata.of(laddr) == is_metadata
            &&& Field::BlockOffset.of(laddr) == block_offset
        }),
{
    let laddr = assembled(
        upgrade,
        shard,
        pool,
        reverse_hash,
        local_object_id,
        local_clone_id,
        is_metadata,
        block_offset,
    );
    lemma_bit_rules();
    lemma_holds_bits(Field::Upgrade.descriptor(), upgrade);
    lemma_holds_bits(Field::Shard.descriptor(), shard);
    lemma_holds_bits(Field::Pool.descriptor(), pool);
    lemma_holds_bits(Field::ReverseHash.descriptor(), reverse_hash);
    lemma_holds_bits(Field::LocalObjectId.descriptor(), local_object_id);
    lemma_holds_bits(Field::LocalCloneId.descriptor(), local_clone_id);
    lemma_holds_bits(Field::IsMetadata.descriptor(), is_metadata);
    lemma_holds_bits(Field::BlockOffset.descriptor(), block_offset);
    lemma_bits_equal(Field::Upgrade.of(laddr), upgrade);
    lemma_bits_equal(Field::Shard.of(laddr), shard);
    lemma_bits_equal(Field::Pool.of(laddr), pool);
    lemma_bits_equal(Field::ReverseHash.of(laddr), reverse_hash);
    lemma_bits_equal(Field::LocalObjectId.of(laddr), local_object_id);
    lemma_bits_equal(Field::LocalCloneId.of(laddr), local_clone_id);
    lemma_bits_equal(Field::IsMetadata.of(laddr), is_metadata);
    lemma_bits_equal(Field::BlockOffset.of(laddr), block_offset);
}

} // verus!
