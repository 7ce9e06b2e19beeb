use laddr::error::LaddrError;
use laddr::row::LaddrRow;
use laddr::variant_b::{
    build_laddr_rows, decode, parse_laddr, rows_of_decoded, split_content, Decoded, Field,
    BLOCK_SHIFT, DEFAULT_OFFSET_BITS, OBJECT_CONTENT_BITS,
};

fn texts(rows: &[LaddrRow]) -> Vec<(&str, &str)> {
    rows.iter().map(|r| (r.property.as_str(), r.value.as_str())).collect()
}

const FIELDS: [Field; 7] = [
    Field::Upgrade,
    Field::Pool,
    Field::Shard,
    Field::ReverseHash,
    Field::LocalObjectId,
    Field::IsMetadata,
    Field::ObjectContent,
];

fn sample() -> u128 {
    (1u128 << 127)
        | (0xabcu128 << 115)
        | (0x5au128 << 107)
        | (0xdead_beefu128 << 75)
        | (0x123_4567u128 << 48)
        | (1u128 << 47)
        | 0x1234_5678_9abc
}

#[test]
fn variant_b_constants_of_the_layout() {
    assert_eq!(OBJECT_CONTENT_BITS, 47);
    assert_eq!(DEFAULT_OFFSET_BITS, 15);
    assert_eq!(BLOCK_SHIFT, 12);
}

#[test]
fn variant_b_descriptors_have_the_layout_widths() {
    let expected = [
        ("upgrade", 1, 127),
        ("pool", 12, 115),
        ("shard", 8, 107),
        ("reverse_hash", 32, 75),
        ("local_object_id", 27, 48),
        ("is_metadata", 1, 47),
        ("object_content", 47, 0),
    ];
    for (field, (name, length, offset)) in FIELDS.iter().zip(expected) {
        let f = field.descriptor();
        assert_eq!((f.name, f.length, f.offset), (name, length, offset));
    }
}

#[test]
fn variant_b_masks_of_the_layout_are_disjoint_and_cover_the_word() {
    let mut all = 0u128;
    for (i, a) in FIELDS.iter().enumerate() {
        for (j, b) in FIELDS.iter().enumerate() {
            if i != j {
                assert_eq!(a.descriptor().mask() & b.descriptor().mask(), 0);
            }
        }
        all |= a.descriptor().mask();
    }
    assert_eq!(all, u128::MAX);
}

#[test]
fn variant_b_split_at_the_default_width() {
    let (clone_id, offset) = split_content(DEFAULT_OFFSET_BITS).unwrap();
    assert_eq!((clone_id.name, clone_id.length, clone_id.offset), ("local_clone_id", 32, 15));
    assert_eq!((offset.name, offset.length, offset.offset), ("offset", 15, 0));
}

#[test]
fn variant_b_split_at_every_width_that_fits() {
    let content = Field::ObjectContent.descriptor().mask();
    for bits in 0..=47usize {
        let (clone_id, offset) = split_content(bits).unwrap();
        assert_eq!(clone_id.length + offset.length, 47);
        assert_eq!(offset.length, bits);
        assert_eq!(clone_id.mask() & offset.mask(), 0);
        assert_eq!(clone_id.mask() | offset.mask(), content);
        for f in FIELDS.iter().filter(|f| **f != Field::ObjectContent) {
            assert_eq!(clone_id.mask() & f.descriptor().mask(), 0);
            assert_eq!(offset.mask() & f.descriptor().mask(), 0);
        }
    }
}

#[test]
fn variant_b_widths_above_47_are_rejected() {
    for bits in [48usize, 49, 64, 128, usize::MAX] {
        assert_eq!(split_content(bits), Err(LaddrError::InvalidOffsetBits { offset_bits: bits }));
        assert_eq!(
            decode(sample(), bits),
            Err(LaddrError::InvalidOffsetBits { offset_bits: bits })
        );
        assert_eq!(
            build_laddr_rows(sample(), bits),
            Err(LaddrError::InvalidOffsetBits { offset_bits: bits })
        );
    }
}

#[test]
fn variant_b_decode_at_the_default_width() {
    let d = decode(sample(), 15).unwrap();
    assert_eq!(
        d,
        Decoded {
            laddr: sample(),
            upgrade: true,
            pool: 0xabc,
            shard: 0x5a,
            reverse_hash: 0xdead_beef,
            local_object_id: 0x123_4567,
            is_metadata: true,
            object_content: 0x1234_5678_9abc,
            local_clone_id: 0x1234_5678_9abc >> 15,
            block_offset: 0x1234_5678_9abc & 0x7fff,
            offset: (0x1234_5678_9abc & 0x7fff) << 12,
        }
    );
}

#[test]
fn variant_b_same_address_split_at_15_and_at_20() {
    let laddr = sample();
    for bits in [15usize, 20] {
        let (clone_id, offset) = split_content(bits).unwrap();
        assert_eq!(clone_id.length + offset.length, 47);
        let d = decode(laddr, bits).unwrap();
        assert_eq!(d.object_content, 0x1234_5678_9abc);
        assert_eq!((d.local_clone_id << bits) | d.block_offset, d.object_content);
        assert!(d.block_offset < (1 << bits));
        assert!(d.local_clone_id < (1 << (47 - bits)));
    }
    assert_eq!(decode(laddr, 15).unwrap().local_clone_id, 0x2468_acf1);
    assert_eq!(decode(laddr, 15).unwrap().block_offset, 0x1abc);
    assert_eq!(decode(laddr, 20).unwrap().local_clone_id, 0x123_4567);
    assert_eq!(decode(laddr, 20).unwrap().block_offset, 0x8_9abc);
}

#[test]
fn variant_b_the_split_may_leave_one_part_empty() {
    let d = decode(sample(), 0).unwrap();
    assert_eq!(d.local_clone_id, 0x1234_5678_9abc);
    assert_eq!(d.block_offset, 0);
    assert_eq!(d.offset, 0);
    let d = decode(sample(), 47).unwrap();
    assert_eq!(d.local_clone_id, 0);
    assert_eq!(d.block_offset, 0x1234_5678_9abc);
    assert_eq!(d.offset, 0x1234_5678_9abc << 12);
}

#[test]
fn variant_b_offset_in_bytes_is_block_offset_times_4096() {
    for laddr in [0u128, 1, sample(), u128::MAX] {
        for bits in [0usize, 1, 15, 20, 47] {
            let d = decode(laddr, bits).unwrap();
            assert_eq!(d.offset, d.block_offset * 4096);
            assert_eq!(d.offset % 4096, 0);
        }
    }
    assert_eq!(decode(u128::MAX, 47).unwrap().offset, ((1u128 << 47) - 1) * 4096);
}

#[test]
fn variant_b_fields_put_back_give_the_address() {
    for bits in [0usize, 15, 20, 47] {
        let d = decode(sample(), bits).unwrap();
        let word = ((d.upgrade as u128) << 127)
            | (d.pool << 115)
            | (d.shard << 107)
            | (d.reverse_hash << 75)
            | (d.local_object_id << 48)
            | ((d.is_metadata as u128) << 47)
            | (d.local_clone_id << bits)
            | d.block_offset;
        assert_eq!(word, sample());
    }
}

#[test]
fn variant_b_rows_in_order() {
    let rows = build_laddr_rows(sample(), 15).unwrap();
    assert_eq!(
        texts(&rows),
        vec![
            ("laddr", "d5e2d6f56df779234567923456789abc"),
            ("upgrade", "true"),
            ("pool", "2748"),
            ("shard", "90"),
            ("reverse_hash", "deadbeef"),
            ("local_object_id", "19088743"),
            ("is_metadata", "true"),
            ("object_content", "123456789abc"),
            ("local_clone_id", "610839793"),
            ("offset", "1abc000"),
        ]
    );
    assert_eq!(format!("{:x}", sample()), "d5e2d6f56df779234567923456789abc");
    assert_eq!(rows_of_decoded(&decode(sample(), 15).unwrap()), rows);
}

#[test]
fn variant_b_rows_of_zero() {
    let rows = build_laddr_rows(0, 15).unwrap();
    assert_eq!(
        texts(&rows),
        vec![
            ("laddr", "0"),
            ("upgrade", "false"),
            ("pool", "0"),
            ("shard", "0"),
            ("reverse_hash", "0"),
            ("local_object_id", "0"),
            ("is_metadata", "false"),
            ("object_content", "0"),
            ("local_clone_id", "0"),
            ("offset", "0"),
        ]
    );
}

#[test]
fn variant_b_literals_with_and_without_prefix() {
    assert_eq!(parse_laddr("1234"), Ok(0x1234));
    assert_eq!(parse_laddr("L1234"), Ok(0x1234));
    assert_eq!(parse_laddr("Lffffffffffffffffffffffffffffffff"), Ok(u128::MAX));
    assert_eq!(parse_laddr("0"), Ok(0));
}

#[test]
fn variant_b_malformed_and_oversized_literals() {
    for s in ["", "L", "0x1234", "xyz", "LL1", "12 ", "+1"] {
        assert_eq!(parse_laddr(s), Err(LaddrError::MalformedLiteral), "{:?}", s);
    }
    assert_eq!(
        parse_laddr("L100000000000000000000000000000000"),
        Err(LaddrError::NumericOverflow)
    );
}
