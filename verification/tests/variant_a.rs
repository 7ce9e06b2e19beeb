use laddr::error::LaddrError;
use laddr::row::LaddrRow;
use laddr::variant_a::{build_laddr_rows, literal_string, parse_laddr, split, Field, Laddr};

fn texts(rows: &[LaddrRow]) -> Vec<(&str, &str)> {
    rows.iter().map(|r| (r.property.as_str(), r.value.as_str())).collect()
}

fn samples() -> Vec<Laddr> {
    vec![
        Laddr::new(0, 0),
        Laddr::new(0, 0x0102_0000_0003_0004),
        Laddr::new(u64::MAX, u64::MAX),
        Laddr::new(0x0123_4567_89ab_cdef, 0xfedc_ba98_7654_3210),
        Laddr::new(1 << 46, 0),
        Laddr::new(1 << 45, 1),
        Laddr::new(0xffff_8000_0000_0fff, 0xffff),
    ]
}

const WITH_SHADOW: [Field; 9] = [
    Field::Pool,
    Field::Shard,
    Field::Crush,
    Field::ShadowedRandom,
    Field::Shadow,
    Field::Metadata,
    Field::Snap,
    Field::LocalSnapId,
    Field::Offset,
];

const WITHOUT_SHADOW: [Field; 8] = [
    Field::Pool,
    Field::Shard,
    Field::Crush,
    Field::Random,
    Field::Metadata,
    Field::Snap,
    Field::LocalSnapId,
    Field::Offset,
];

#[test]
fn variant_a_descriptors_have_the_layout_widths() {
    let expected = [
        ("pool", 8, 120),
        ("shard", 8, 112),
        ("crush", 32, 80),
        ("random", 33, 47),
        ("shadow", 1, 46),
        ("metadata", 1, 45),
        ("snap", 1, 44),
        ("local_snap_id", 32, 12),
        ("offset", 12, 0),
    ];
    for (field, (name, length, offset)) in WITH_SHADOW.iter().zip(expected) {
        let f = field.descriptor();
        assert_eq!((f.name, f.length, f.offset), (name, length, offset));
    }
    let random = Field::Random.descriptor();
    assert_eq!((random.name, random.length, random.offset), ("random", 34, 46));
}

#[test]
fn variant_a_masks_of_either_layout_are_disjoint_and_cover_the_word() {
    for layout in [&WITH_SHADOW[..], &WITHOUT_SHADOW[..]] {
        let mut all = 0u128;
        for (i, a) in layout.iter().enumerate() {
            for (j, b) in layout.iter().enumerate() {
                if i != j {
                    assert_eq!(a.descriptor().mask() & b.descriptor().mask(), 0);
                }
            }
            all |= a.descriptor().mask();
        }
        assert_eq!(all, u128::MAX);
    }
    assert_eq!(
        Field::Random.descriptor().mask(),
        Field::ShadowedRandom.descriptor().mask() | Field::Shadow.descriptor().mask()
    );
}

#[test]
fn variant_a_accessors_read_the_fields_of_the_joined_word() {
    for a in samples() {
        let word = a.word();
        assert_eq!(word, ((a.high as u128) << 64) | a.low as u128);
        assert_eq!(a.pool() as u128, Field::Pool.descriptor().get(word));
        assert_eq!(a.shard() as u128, Field::Shard.descriptor().get(word));
        assert_eq!(a.crush() as u128, Field::Crush.descriptor().get(word));
        assert_eq!(a.random(true) as u128, Field::ShadowedRandom.descriptor().get(word));
        assert_eq!(a.random(false) as u128, Field::Random.descriptor().get(word));
        assert_eq!(a.shadow() as u128, Field::Shadow.descriptor().get(word));
        assert_eq!(a.metadata() as u128, Field::Metadata.descriptor().get(word));
        assert_eq!(a.snap() as u128, Field::Snap.descriptor().get(word));
        assert_eq!(a.local_snap_id() as u128, Field::LocalSnapId.descriptor().get(word));
        assert_eq!(a.offset() as u128, Field::Offset.descriptor().get(word) * 4096);
        for flag in [false, true] {
            assert_eq!(
                a.with_shadow(flag).word(),
                Field::Shadow.descriptor().set(word, flag as u128)
            );
            assert_eq!(
                a.with_metadata(flag).word(),
                Field::Metadata.descriptor().set(word, flag as u128)
            );
            assert_eq!(
                a.with_snap(flag).word(),
                Field::Snap.descriptor().set(word, flag as u128)
            );
        }
        assert_eq!(a.onode_prefix().word(), Field::Offset.descriptor().set(word, 0));
        assert_eq!(split(word), a);
    }
}

#[test]
fn variant_a_concrete_example_without_shadow() {
    let a = Laddr::new(0x0000_0000_0000_0000, 0x0102_0000_0003_0004);
    assert_eq!(a.pool(), 0x01);
    assert_eq!(a.shard(), 0x02);
    assert_eq!(a.crush(), 0x0000_0003);
    assert_eq!(a.random(false), (0x0004 << 18) | 0);
    assert_eq!(a.random(false), 0x10_0000);
    assert!(!a.shadow());
    assert!(!a.metadata());
    assert!(!a.snap());
    assert_eq!(a.local_snap_id(), 0);
    assert_eq!(a.offset(), 0);
}

#[test]
fn variant_a_every_field_is_read_from_its_place() {
    let high = (0xabu64 << 56) | (0xcdu64 << 48) | (0xdead_beefu64 << 16) | 0x8001;
    let low = (0x1_5555u64 << 47)
        | (1u64 << 46)
        | (1u64 << 44)
        | (0x1234_5678u64 << 12)
        | 0xabc;
    let a = Laddr::new(low, high);
    assert_eq!(a.pool(), 0xab);
    assert_eq!(a.shard(), 0xcd);
    assert_eq!(a.crush(), 0xdead_beef);
    assert_eq!(a.random(true), (0x8001 << 17) | 0x1_5555);
    assert_eq!(a.random(false), (0x8001 << 18) | (0x1_5555 << 1) | 1);
    assert!(a.shadow());
    assert!(!a.metadata());
    assert!(a.snap());
    assert_eq!(a.local_snap_id(), 0x1234_5678);
    assert_eq!(a.offset(), 0xabc << 12);
    assert_eq!(a.offset(), 0xabc * 4096);
}

#[test]
fn variant_a_all_ones_gives_the_largest_fields() {
    let a = Laddr::new(u64::MAX, u64::MAX);
    assert_eq!(a.pool(), 0xff);
    assert_eq!(a.shard(), 0xff);
    assert_eq!(a.crush(), 0xffff_ffff);
    assert_eq!(a.random(true), (1 << 33) - 1);
    assert_eq!(a.random(false), (1 << 34) - 1);
    assert!(a.shadow() && a.metadata() && a.snap());
    assert_eq!(a.local_snap_id(), 0xffff_ffff);
    assert_eq!(a.offset(), 0xfff * 4096);
}

#[test]
fn variant_a_random_without_shadow_is_random_with_shadow_then_the_flag() {
    for a in samples() {
        assert_eq!(a.random(false), 2 * a.random(true) + a.shadow() as u64);
    }
}

#[test]
fn variant_a_setting_metadata_changes_nothing_else() {
    for a in samples() {
        for flag in [false, true] {
            let r = a.with_metadata(flag);
            assert_eq!(r.metadata(), flag);
            assert_eq!(r.high, a.high);
            assert_eq!(r.pool(), a.pool());
            assert_eq!(r.shard(), a.shard());
            assert_eq!(r.crush(), a.crush());
            assert_eq!(r.random(true), a.random(true));
            assert_eq!(r.random(false), a.random(false));
            assert_eq!(r.shadow(), a.shadow());
            assert_eq!(r.snap(), a.snap());
            assert_eq!(r.local_snap_id(), a.local_snap_id());
            assert_eq!(r.offset(), a.offset());
        }
    }
}

#[test]
fn variant_a_setting_snap_changes_nothing_else() {
    for a in samples() {
        for flag in [false, true] {
            let r = a.with_snap(flag);
            assert_eq!(r.snap(), flag);
            assert_eq!(r.high, a.high);
            assert_eq!(r.pool(), a.pool());
            assert_eq!(r.shard(), a.shard());
            assert_eq!(r.crush(), a.crush());
            assert_eq!(r.random(true), a.random(true));
            assert_eq!(r.random(false), a.random(false));
            assert_eq!(r.shadow(), a.shadow());
            assert_eq!(r.metadata(), a.metadata());
            assert_eq!(r.local_snap_id(), a.local_snap_id());
            assert_eq!(r.offset(), a.offset());
        }
    }
}

#[test]
fn variant_a_setting_shadow_changes_the_random_field_of_the_other_mode() {
    for a in samples() {
        for flag in [false, true] {
            let r = a.with_shadow(flag);
            assert_eq!(r.shadow(), flag);
            assert_eq!(r.high, a.high);
            assert_eq!(r.pool(), a.pool());
            assert_eq!(r.shard(), a.shard());
            assert_eq!(r.crush(), a.crush());
            assert_eq!(r.random(true), a.random(true));
            assert_eq!(r.metadata(), a.metadata());
            assert_eq!(r.snap(), a.snap());
            assert_eq!(r.local_snap_id(), a.local_snap_id());
            assert_eq!(r.offset(), a.offset());
            assert_eq!(r.random(false), 2 * a.random(true) + flag as u64);
            assert_eq!(r.random(false) == a.random(false), flag == a.shadow());
        }
    }
    let a = Laddr::new(0, 0x0102_0000_0003_0004);
    assert_eq!(a.with_shadow(true).random(false), 0x10_0001);
    assert_eq!(a.with_shadow(true).low, 1 << 46);
    assert_eq!(a.with_metadata(true).low, 1 << 45);
    assert_eq!(a.with_snap(true).low, 1 << 44);
}

#[test]
fn variant_a_setting_a_flag_twice_is_setting_it_once() {
    for a in samples() {
        for first in [false, true] {
            assert_eq!(a.with_metadata(first).with_metadata(first), a.with_metadata(first));
            assert_eq!(a.with_snap(first).with_snap(first), a.with_snap(first));
            assert_eq!(a.with_shadow(first).with_shadow(first), a.with_shadow(first));
            for second in [false, true] {
                assert_eq!(a.with_metadata(first).with_metadata(second), a.with_metadata(second));
                assert_eq!(a.with_snap(first).with_snap(second), a.with_snap(second));
                assert_eq!(a.with_shadow(first).with_shadow(second), a.with_shadow(second));
            }
        }
    }
}

#[test]
fn variant_a_object_prefix_keeps_the_random_field_of_its_mode() {
    let a = Laddr::new(u64::MAX, 0x0102_0000_0003_0004);
    assert_eq!(a.object_prefix(true), Laddr::new(0xffff_8000_0000_0000, a.high));
    assert_eq!(a.object_prefix(false), Laddr::new(0xffff_c000_0000_0000, a.high));
    for a in samples() {
        for mode in [false, true] {
            let p = a.object_prefix(mode);
            assert_eq!(p.high, a.high);
            assert_eq!(p.pool(), a.pool());
            assert_eq!(p.shard(), a.shard());
            assert_eq!(p.crush(), a.crush());
            assert_eq!(p.random(mode), a.random(mode));
            assert!(!p.metadata() && !p.snap());
            assert_eq!(p.local_snap_id(), 0);
            assert_eq!(p.offset(), 0);
            if mode {
                assert!(!p.shadow());
            } else {
                assert_eq!(p.shadow(), a.shadow());
            }
            assert_eq!(p.object_prefix(mode), p);
            assert_eq!(p.onode_prefix(), p);
        }
    }
}

#[test]
fn variant_a_onode_prefix_clears_the_offset_only() {
    let a = Laddr::new(u64::MAX, 7);
    assert_eq!(a.onode_prefix(), Laddr::new(0xffff_ffff_ffff_f000, 7));
    for a in samples() {
        let q = a.onode_prefix();
        assert_eq!(q.high, a.high);
        assert_eq!(q.low, a.low & !0xfff);
        assert_eq!(q.offset(), 0);
        assert_eq!(q.local_snap_id(), a.local_snap_id());
        assert_eq!(q.random(true), a.random(true));
        assert_eq!(q.random(false), a.random(false));
        assert_eq!((q.shadow(), q.metadata(), q.snap()), (a.shadow(), a.metadata(), a.snap()));
        assert_eq!(q.onode_prefix(), q);
        assert_eq!(q.object_prefix(true), a.object_prefix(true));
        assert_eq!(q.object_prefix(false), a.object_prefix(false));
    }
}

#[test]
fn variant_a_addresses_of_one_object_share_the_prefix() {
    let a = Laddr::new((0x1_2345u64 << 47) | 0x1234, 0xabcd);
    let b = a.with_metadata(true).with_snap(true);
    assert_eq!(a.object_prefix(true), b.object_prefix(true));
    assert_eq!(a.object_prefix(false), b.object_prefix(false));
    let c = a.with_shadow(true);
    assert_eq!(a.object_prefix(true), c.object_prefix(true));
    assert_ne!(a.object_prefix(false), c.object_prefix(false));
    assert_ne!(a.onode_prefix(), b.onode_prefix());
    let d = Laddr::new(a.low ^ 0xfff, a.high);
    assert_eq!(a.onode_prefix(), d.onode_prefix());
}

#[test]
fn variant_a_literal_is_high_then_sixteen_digits_of_low() {
    assert_eq!(literal_string(Laddr::new(2, 1)), "10000000000000002");
    assert_eq!(literal_string(Laddr::new(0, 0)), "00000000000000000");
    assert_eq!(literal_string(Laddr::new(u64::MAX, u64::MAX)), "ffffffffffffffffffffffffffffffff");
    for a in samples() {
        assert_eq!(literal_string(a), format!("{:x}{:016x}", a.high, a.low));
    }
}

#[test]
fn variant_a_rows_in_order_without_shadow() {
    let a = Laddr::new(0, 0x0102_0000_0003_0004);
    assert_eq!(
        texts(&build_laddr_rows(a, false)),
        vec![
            ("laddr", "1020000000300040000000000000000"),
            ("pool", "1"),
            ("shard", "2"),
            ("crush", "3"),
            ("random", "100000"),
            ("shadow", "false"),
            ("metadata", "false"),
            ("snap", "false"),
            ("local_snap_id", "0"),
            ("offset", "0"),
        ]
    );
}

#[test]
fn variant_a_rows_in_order_with_shadow() {
    let a = Laddr::new(0xffff_ffff_ffff_ffff, 0xfedc_ba98_7654_3210);
    assert_eq!(
        texts(&build_laddr_rows(a, true)),
        vec![
            ("laddr", "fedcba9876543210ffffffffffffffff"),
            ("pool", "254"),
            ("shard", "220"),
            ("crush", "ba987654"),
            ("random", "6421ffff"),
            ("shadow", "true"),
            ("metadata", "true"),
            ("snap", "true"),
            ("local_snap_id", "4294967295"),
            ("offset", "fff000"),
        ]
    );
    assert_eq!(texts(&build_laddr_rows(a, false))[4], ("random", "c843ffff"));
}

#[test]
fn variant_a_split_cuts_a_word_in_halves() {
    assert_eq!(split(0), Laddr::new(0, 0));
    assert_eq!(split(u128::MAX), Laddr::new(u64::MAX, u64::MAX));
    assert_eq!(
        split(0x0102_0000_0003_0004_0000_0000_0000_0005),
        Laddr::new(5, 0x0102_0000_0003_0004)
    );
}

#[test]
fn variant_a_hexadecimal_literals() {
    assert_eq!(parse_laddr("0x0"), Ok(Laddr::new(0, 0)));
    assert_eq!(parse_laddr("0x1234"), Ok(Laddr::new(0x1234, 0)));
    assert_eq!(
        parse_laddr("0x01020000000300040000000000000005"),
        Ok(Laddr::new(5, 0x0102_0000_0003_0004))
    );
    assert_eq!(
        parse_laddr("0xFFFFFFFFFFFFFFFFffffffffffffffff"),
        Ok(Laddr::new(u64::MAX, u64::MAX))
    );
    for a in samples() {
        let text = format!("0x{}", literal_string(a));
        assert_eq!(parse_laddr(&text), Ok(a));
    }
}

#[test]
fn variant_a_halves_in_decimal() {
    assert_eq!(parse_laddr("low = 5, high = 7"), Ok(Laddr::new(5, 7)));
    assert_eq!(parse_laddr("low = 0, high = 0"), Ok(Laddr::new(0, 0)));
    assert_eq!(
        parse_laddr("low = 18446744073709551615, high = 18446744073709551615"),
        Ok(Laddr::new(u64::MAX, u64::MAX))
    );
    assert_eq!(parse_laddr("low = 007, high = 010"), Ok(Laddr::new(7, 10)));
}

#[test]
fn variant_a_malformed_texts() {
    for s in [
        "",
        "0",
        "1234",
        "L1234",
        "0x",
        "0xg",
        "0x12 ",
        "0X12",
        "x12",
        "low = 5",
        "low = 5,",
        "low = 5, high = ",
        "low = , high = 7",
        "low = 5, high = 7 ",
        " low = 5, high = 7",
        "low = 5,high = 7",
        "low=5, high=7",
        "low = 5, high = 7x",
        "low = 5x, high = 7",
        "low = a, high = 7",
        "low = 5, high = f",
        "high = 7, low = 5",
        "low = -5, high = 7",
        "low = 5, high = +7",
        "low = 5, low = 7",
    ] {
        assert_eq!(parse_laddr(s), Err(LaddrError::MalformedLiteral), "{:?}", s);
    }
}

#[test]
fn variant_a_numbers_too_large_for_their_place() {
    assert_eq!(
        parse_laddr("0x100000000000000000000000000000000"),
        Err(LaddrError::NumericOverflow)
    );
    assert_eq!(
        parse_laddr("low = 18446744073709551616, high = 0"),
        Err(LaddrError::NumericOverflow)
    );
    assert_eq!(
        parse_laddr("low = 0, high = 18446744073709551616"),
        Err(LaddrError::NumericOverflow)
    );
    assert_eq!(
        parse_laddr("low = 99999999999999999999999999999999999999999, high = 1"),
        Err(LaddrError::NumericOverflow)
    );
}
