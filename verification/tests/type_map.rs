use layered_nlp::type_bucket::TypeBucket;
use layered_nlp::{AttrData, AttrKind};

fn custom(kind: u64, label: &str) -> AttrData {
    AttrData::Custom(kind, label.to_string())
}

#[test]
fn test_type_map() {
    let mut map = TypeBucket::new();

    map.insert(custom(1, "5"));
    map.insert(custom(2, "MyType(10)"));

    assert_eq!(map.get(AttrKind::Custom(1)), vec![custom(1, "5")]);

    assert_eq!(map.get(AttrKind::Custom(9)), Vec::<AttrData>::new());
    assert_eq!(map.get(AttrKind::Custom(2)), vec![custom(2, "MyType(10)")]);

    map.insert(custom(2, "MyType(20)"));
    assert_eq!(
        map.get(AttrKind::Custom(2)),
        vec![custom(2, "MyType(10)"), custom(2, "MyType(20)")]
    );
}
