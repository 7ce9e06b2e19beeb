use laddr::error::LaddrError;
use laddr::row::LaddrRow;
use laddr::variant_c::{
    build_laddr_rows, decode, parse_laddr, rows_of_decoded, Decoded, Field, BLOCK_SIZE,
    PREFIX_MASK,
};

fn texts(rows: &[LaddrRow]) -> Vec<(&str, &str)> {
    rows.iter().map(|r| (r.property.as_str(), r.value.as_str())).collect()
}

const PARTS: [Field; 8] = [
    Field::Upgrade,
    Field::Shard,
    Field::Pool,
    Field::ReverseHash,
    Field::LocalObjectId,
    Field::LocalCloneId,
    Field::IsMetadata,
    Field::BlockOffset,
];

#[test]
fn variant_c_descriptors_have_the_layout_widths() {
    let expected = [
        ("upgrade", 1, 127),
        ("shard", 6, 121),
        ("pool", 12, 109),
        ("reverse_hash", 16, 93),
        ("local_object_id", 42, 51),
        ("local_clone_id", 23, 28),
        ("is_metadata", 1, 27),
        ("block_offset", 27, 0),
    ];
    for (field, (name, length, offset)) in PARTS.iter().zip(expected) {
        let f = field.descriptor();
        assert_eq!((f.name, f.length, f.offset), (name, length, offset));
    }
    let info = Field::ObjectInfo.descriptor();
    assert_eq!((info.name, info.length, info.offset), ("object_info", 76, 51));
    let content = Field::ObjectContent.descriptor();
    assert_eq!((content.name, content.length, content.offset), ("object_content", 51, 0));
}

#[test]
fn variant_c_masks_of_the_layout_are_disjoint_and_cover_the_word() {
    let mut all = 0u128;
    for (i, a) in PARTS.iter().enumerate() {
        for (j, b) in PARTS.iter().enumerate() {
            if i != j {
                assert_eq!(a.descriptor().mask() & b.descriptor().mask(), 0);
            }
        }
        all |= a.descriptor().mask();
    }
    assert_eq!(all, u128::MAX);
}

#[test]
fn variant_c_prefix_mask_is_upgrade_and_object_info() {
    assert_eq!(
        PREFIX_MASK,
        Field::Upgrade.descriptor().mask() | Field::ObjectInfo.descriptor().mask()
    );
    assert_eq!(PREFIX_MASK, !Field::ObjectContent.descriptor().mask());
    assert_eq!(PREFIX_MASK, u128::MAX << 51);
    assert_eq!(BLOCK_SIZE, 4096);
}

#[test]
fn variant_c_zero_prefix_gives_the_short_form() {
    let d = decode(0x1234);
    assert_eq!(d, Decoded::ShortForm { laddr: 0x1234, object_content: 0x1234 });
    let rows = build_laddr_rows(0x1234);
    assert_eq!(texts(&rows), vec![("laddr", "1234"), ("object_content", "1234")]);
}

#[test]
fn variant_c_zero_is_a_bare_address() {
    assert_eq!(decode(0), Decoded::ShortForm { laddr: 0, object_content: 0 });
    assert_eq!(texts(&build_laddr_rows(0)), vec![("laddr", "0"), ("object_content", "0")]);
}

#[test]
fn variant_c_largest_bare_address_and_smallest_prefixed_one() {
    let top = (1u128 << 51) - 1;
    assert_eq!(decode(top), Decoded::ShortForm { laddr: top, object_content: top });
    match decode(1u128 << 51) {
        Decoded::FullForm { prefix, local_object_id, object_content, .. } => {
            assert_eq!(prefix, 1u128 << 51);
            assert_eq!(local_object_id, 1);
            assert_eq!(object_content, 0);
        },
        Decoded::ShortForm { .. } => panic!("an address with a prefix is never short"),
    }
}

#[test]
fn variant_c_upgrade_bit_gives_the_full_form_with_the_same_content() {
    let laddr = (1u128 << 127) | 0x1234;
    let d = decode(laddr);
    assert_eq!(
        d,
        Decoded::FullForm {
            laddr,
            prefix: 1u128 << 127,
            upgrade: true,
            shard: 0,
            pool: 0,
            reverse_hash: 0,
            local_object_id: 0,
            local_clone_id: 0,
            is_metadata: false,
            block_offset: 0x1234,
            byte_offset: 0x1234 * 4096,
            object_content: 0x1234,
        }
    );
    let rows = build_laddr_rows(laddr);
    assert_eq!(
        texts(&rows),
        vec![
            ("laddr", "80000000000000000000000000001234"),
            ("prefix", "80000000000000000000000000000000"),
            ("upgrade", "true"),
            ("shard", "0"),
            ("pool", "0"),
            ("reverse_hash", "0"),
            ("local_object_id", "0"),
            ("local_clone_id", "0"),
            ("is_metadata", "false"),
            ("offset_16", "1234(*4096=1234000)"),
            ("offset_10", "4660(*4096=19087360)"),
            ("object_content", "1234"),
        ]
    );
}

#[test]
fn variant_c_object_content_is_shown_alike_in_both_forms() {
    let short = build_laddr_rows(0x1234);
    let full = build_laddr_rows((1u128 << 127) | 0x1234);
    assert_eq!(short.len(), 2);
    assert_eq!(full.len(), 12);
    assert!(texts(&full).contains(&("upgrade", "true")));
    assert_eq!(texts(&short).last(), Some(&("object_content", "1234")));
    assert_eq!(texts(&full).last(), texts(&short).last());
    let named: Vec<_> = full.iter().filter(|r| r.property == "object_content").collect();
    assert_eq!(named.len(), 1);
    for laddr in [0u128, 1, (1u128 << 51) - 1, 1u128 << 51, u128::MAX] {
        let rows = build_laddr_rows(laddr);
        let last = rows.last().unwrap();
        assert_eq!(last.property, "object_content");
        assert_eq!(last.value, format!("{:x}", laddr & ((1u128 << 51) - 1)));
    }
}

#[test]
fn variant_c_every_field_is_read_from_its_place() {
    let laddr = (1u128 << 127)
        | (0x2au128 << 121)
        | (0xabcu128 << 109)
        | (0xbeefu128 << 93)
        | (0x3_1234_5678_9au128 << 51)
        | (0x5a_5a5au128 << 28)
        | (1u128 << 27)
        | 0x654_3210;
    assert_eq!(
        decode(laddr),
        Decoded::FullForm {
            laddr,
            prefix: laddr & PREFIX_MASK,
            upgrade: true,
            shard: 0x2a,
            pool: 0xabc,
            reverse_hash: 0xbeef,
            local_object_id: 0x3_1234_5678_9a,
            local_clone_id: 0x5a_5a5a,
            is_metadata: true,
            block_offset: 0x654_3210,
            byte_offset: 0x654_3210 * 4096,
            object_content: laddr & ((1u128 << 51) - 1),
        }
    );
    let rows = build_laddr_rows(laddr);
    let expected = vec![
        ("laddr".to_string(), format!("{:x}", laddr)),
        ("prefix".to_string(), format!("{:x}", laddr & PREFIX_MASK)),
        ("upgrade".to_string(), "true".to_string()),
        ("shard".to_string(), "42".to_string()),
        ("pool".to_string(), "2748".to_string()),
        ("reverse_hash".to_string(), "beef".to_string()),
        ("local_object_id".to_string(), format!("{}", 0x3_1234_5678_9au64)),
        ("local_clone_id".to_string(), format!("{}", 0x5a_5a5a)),
        ("is_metadata".to_string(), "true".to_string()),
        ("offset_16".to_string(), "6543210(*4096=6543210000)".to_string()),
        ("offset_10".to_string(), format!("{}(*4096={})", 0x654_3210u64, 0x654_3210u64 * 4096)),
        ("object_content".to_string(), format!("{:x}", laddr & ((1u128 << 51) - 1))),
    ];
    let got: Vec<(String, String)> =
        rows.iter().map(|r| (r.property.clone(), r.value.clone())).collect();
    assert_eq!(got, expected);
}

#[test]
fn variant_c_all_ones_decodes_to_the_largest_fields() {
    match decode(u128::MAX) {
        Decoded::FullForm {
            upgrade,
            shard,
            pool,
            reverse_hash,
            local_object_id,
            local_clone_id,
            is_metadata,
            block_offset,
            byte_offset,
            object_content,
            ..
        } => {
            assert!(upgrade && is_metadata);
            assert_eq!(shard, (1 << 6) - 1);
            assert_eq!(pool, (1 << 12) - 1);
            assert_eq!(reverse_hash, (1 << 16) - 1);
            assert_eq!(local_object_id, (1u128 << 42) - 1);
            assert_eq!(local_clone_id, (1 << 23) - 1);
            assert_eq!(block_offset, (1 << 27) - 1);
            assert_eq!(byte_offset, ((1u128 << 27) - 1) * 4096);
            assert_eq!(object_content, (1u128 << 51) - 1);
        },
        Decoded::ShortForm { .. } => panic!("an address with a prefix is never short"),
    }
}

#[test]
fn variant_c_byte_offset_is_block_offset_times_4096() {
    for block in [0u128, 1, 2, 0x1234, (1 << 27) - 1] {
        match decode((1u128 << 127) | block) {
            Decoded::FullForm { block_offset, byte_offset, .. } => {
                assert_eq!(block_offset, block);
                assert_eq!(byte_offset, block * 4096);
                assert_eq!(byte_offset % 4096, 0);
            },
            Decoded::ShortForm { .. } => panic!("an address with a prefix is never short"),
        }
    }
}

#[test]
fn variant_c_fields_put_back_give_the_address() {
    let laddr = 0x8765_4321_0fed_cba9_8765_4321_0fed_cba9u128;
    match decode(laddr) {
        Decoded::FullForm {
            prefix,
            upgrade,
            shard,
            pool,
            reverse_hash,
            local_object_id,
            local_clone_id,
            is_metadata,
            block_offset,
            object_content,
            ..
        } => {
            assert_eq!(prefix | object_content, laddr);
            assert_eq!(
                (local_clone_id << 28) | ((is_metadata as u128) << 27) | block_offset,
                object_content
            );
            assert_eq!(
                ((upgrade as u128) << 127)
                    | (shard << 121)
                    | (pool << 109)
                    | (reverse_hash << 93)
                    | (local_object_id << 51)
                    | object_content,
                laddr
            );
        },
        Decoded::ShortForm { .. } => panic!("an address with a prefix is never short"),
    }
}

#[test]
fn variant_c_rows_of_a_decoding_are_the_rows_of_its_address() {
    for laddr in [0u128, 0x1234, (1u128 << 127) | 0x1234, u128::MAX] {
        assert_eq!(rows_of_decoded(&decode(laddr)), build_laddr_rows(laddr));
    }
}

#[test]
fn variant_c_literals_with_and_without_prefix() {
    assert_eq!(parse_laddr("1234"), Ok(0x1234));
    assert_eq!(parse_laddr("L1234"), Ok(0x1234));
    assert_eq!(parse_laddr("0x1234"), Ok(0x1234));
    assert_eq!(parse_laddr("0"), Ok(0));
    assert_eq!(parse_laddr("L0"), Ok(0));
    assert_eq!(parse_laddr("0x0"), Ok(0));
    assert_eq!(parse_laddr("DeadBeef"), Ok(0xdead_beef));
    assert_eq!(parse_laddr("Lffffffffffffffffffffffffffffffff"), Ok(u128::MAX));
    assert_eq!(
        parse_laddr("80000000000000000000000000001234"),
        Ok((1u128 << 127) | 0x1234)
    );
}

#[test]
fn variant_c_malformed_literals() {
    for s in [
        "", "L", "0x", "xyz", "L0x12", "0xL12", "12 ", " 12", "0x12g", "+12", "-1", "l12", "0X12",
        "LL1",
    ] {
        assert_eq!(parse_laddr(s), Err(LaddrError::MalformedLiteral), "{:?}", s);
    }
}

#[test]
fn variant_c_literals_too_large_for_128_bits() {
    assert_eq!(
        parse_laddr("100000000000000000000000000000000"),
        Err(LaddrError::NumericOverflow)
    );
    assert_eq!(
        parse_laddr("0xfffffffffffffffffffffffffffffffff"),
        Err(LaddrError::NumericOverflow)
    );
    assert_eq!(
        parse_laddr("L00000000000000000000000000000000ff"),
        Ok(0xff)
    );
}
