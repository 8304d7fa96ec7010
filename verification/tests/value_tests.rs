use file_rat::compression::CompressionType;
use file_rat::item::FileItem;
use file_rat::meta::{MetadataTest, RatMeta, RatMetaBase};
use file_rat::text::{string_from_chars, trim_chars};

#[test]
fn compression_codes() {
    assert_eq!(CompressionType::from_u8(1), Some(CompressionType::Fast));
    assert_eq!(CompressionType::from_u8(2), Some(CompressionType::Best));
    assert_eq!(CompressionType::from_u8(3), Some(CompressionType::Default));
    assert_eq!(CompressionType::from_u8(0), None);
    assert_eq!(CompressionType::from_u8(4), None);
    for c in [CompressionType::Fast, CompressionType::Best, CompressionType::Default] {
        assert_eq!(CompressionType::from_u8(c.to_u8()), Some(c));
    }
    assert_eq!(CompressionType::Best.to_u8(), 2);
    assert_eq!(CompressionType::default(), CompressionType::Fast);
    assert_eq!(CompressionType::Fast.bzip2_level(), 1);
    assert_eq!(CompressionType::Best.bzip2_level(), 9);
    assert_eq!(CompressionType::Default.bzip2_level(), 6);
}

#[test]
fn compression_names() {
    assert!(CompressionType::is_valid("fast"));
    assert!(CompressionType::is_valid("BEST"));
    assert!(CompressionType::is_valid("DeFaUlT"));
    assert!(!CompressionType::is_valid("fast "));
    assert!(!CompressionType::is_valid("quick"));
    assert!(!CompressionType::is_valid(""));
    assert_eq!(CompressionType::from_str("Fast"), Some(CompressionType::Fast));
    assert_eq!(CompressionType::from_str("best"), Some(CompressionType::Best));
    assert_eq!(CompressionType::from_str("DEFAULT"), Some(CompressionType::Default));
    assert_eq!(CompressionType::from_str("défault"), None);
}

#[test]
fn item_ids_are_version_one_with_the_node_id() {
    let a = FileItem::new("n".to_string(), 5u8, 10, 1, 2).unwrap();
    assert_eq!(a.id & 0xFFFF_FFFF_FFFF, 0x0102_0304_0506);
    assert_eq!((a.id >> 76) & 0xF, 1);
    assert_eq!((a.id >> 62) & 0x3, 2);
    assert_eq!((a.name.as_str(), a.metadata, a.size, a.start, a.end), ("n", 5, 10, 1, 2));
}

fn uuid_v1_formula(secs: u64, nanos: u32, counter: u16) -> u128 {
    let t = 0x01B2_1DD2_1381_4000u64
        .wrapping_add(secs.wrapping_mul(10_000_000))
        .wrapping_add(nanos as u64 / 100) as u128;
    ((t % (1 << 32)) << 96)
        + (((t >> 32) % (1 << 16)) << 80)
        + ((0x1000 + (t >> 48) % 0x1000) << 64)
        + ((0x8000 + (counter as u128) % 0x4000) << 48)
        + 0x0102_0304_0506
}

#[test]
fn item_ids_for_a_given_time() {
    // the time of the uuid crate's own example: f3b4958c-52a1-11e7-...
    let a = FileItem::at_time("n".to_string(), (), 0, 0, 0, 1497624119, 1234);
    assert_eq!(a.id, 0xf3b4958c_52a1_11e7_84d2_010203040506);
    assert_eq!(a.id, uuid_v1_formula(1497624119, 1234, 1234));
    for (secs, nanos) in [(0u64, 0u32), (1_496_854_535, 812_946_000), (u64::MAX, 999_999_999)] {
        let b = FileItem::at_time("n".to_string(), (), 0, 0, 0, secs, nanos);
        assert_eq!(b.id, uuid_v1_formula(secs, nanos, (nanos % 0x4000) as u16));
        assert_eq!(b.id & 0xFFFF_FFFF_FFFF, 0x0102_0304_0506);
        assert_eq!((b.id >> 76) & 0xF, 1);
        assert_eq!((b.id >> 62) & 0x3, 2);
    }
}

#[test]
fn metadata() {
    let m = MetadataTest::new();
    assert_eq!(m.text, "Hello, world!");
    assert_eq!(m.hour, "12:00");
    let base = RatMetaBase::new();
    assert!(base.created_at > 1_600_000_000);
    assert_eq!(RatMetaBase::from_epoch_secs(Some(12)).created_at, 12);
    assert_eq!(RatMetaBase::from_epoch_secs(None).created_at, 0);
    let meta = RatMeta::new(3u8);
    assert_eq!(meta.custom, 3);
    let mut obj = RatMeta::new_object();
    assert_eq!(obj.custom.len(), 0);
    obj.insert_custom("owner".to_string(), serde_json::Value::String("alice".to_string()));
    obj.insert_custom("owner".to_string(), serde_json::Value::String("bob".to_string()));
    obj.insert_custom("k".to_string(), serde_json::Value::String("v".to_string()));
    assert_eq!(obj.custom.len(), 2);
    assert_eq!(
        obj.custom.get(&"owner".to_string()),
        Some(&serde_json::Value::String("bob".to_string()))
    );
    assert_eq!(obj.custom.get(&"none".to_string()), None);
    assert_eq!(obj.custom.get("k"), Some(&serde_json::Value::String("v".to_string())));
}

#[test]
fn trimming() {
    let cs: Vec<char> = " \t\u{2003}a b\u{3000}\n".chars().collect();
    assert_eq!(string_from_chars(&trim_chars(&cs)), "a b");
    let empty: Vec<char> = "  \u{85} ".chars().collect();
    assert!(trim_chars(&empty).is_empty());
}
