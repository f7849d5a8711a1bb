use ace::component_derive::{
    bitflag_ident_from_upper, generate_from_impls, generate_type_ids, get_bitflag_ident, is_distinct,
    marker_variants,
    ComponentVariant,
};

fn variant(name: &str, value_type: Option<&str>) -> ComponentVariant {
    ComponentVariant {
        name: name.to_string(),
        value_type: value_type.map(|t| t.to_string()),
        marker: value_type.is_none(),
    }
}

#[test]
fn bitflag_ident_should_be_upper_case_name() {
    assert_eq!("NUMBER", get_bitflag_ident("Number"));
    assert_eq!("RIGIDBODY", get_bitflag_ident("RigidBody"));
}

#[test]
fn bitflag_ident_should_prefix_single_character_names() {
    assert_eq!("CONST_A", get_bitflag_ident("A"));
    assert_eq!("CONST_B", get_bitflag_ident("b"));
}

#[test]
fn type_ids_should_be_successive_powers_of_two() {
    let variants = vec![
        variant("Number", Some("u32")),
        variant("Float", Some("f32")),
        variant("Bool", Some("bool")),
        variant("Marker1", None),
        variant("Marker2", None),
    ];
    let ids = generate_type_ids(&variants);
    let pairs: Vec<(String, u32)> = ids.into_iter().map(|c| (c.name, c.value)).collect();
    assert_eq!(
        vec![
            ("NUMBER".to_string(), 1),
            ("FLOAT".to_string(), 2),
            ("BOOL".to_string(), 4),
            ("MARKER1".to_string(), 8),
            ("MARKER2".to_string(), 16),
        ],
        pairs
    );
}

#[test]
fn type_ids_should_stay_distinct_for_thirty_one_variants() {
    let variants: Vec<ComponentVariant> = (0..31).map(|i| variant(&format!("V{i}"), None)).collect();
    let ids = generate_type_ids(&variants);
    assert_eq!(31, ids.len());
    assert_eq!(0x4000_0000, ids[30].value);
    for (i, a) in ids.iter().enumerate() {
        for b in ids.iter().skip(i + 1) {
            assert_eq!(0, a.value & b.value);
        }
    }
}

#[test]
fn from_impls_should_skip_variants_sharing_a_type() {
    let variants = vec![
        variant("Number", Some("u32")),
        variant("Float", Some("f32")),
        variant("Float2", Some("f32")),
        variant("Marker", None),
    ];
    assert_eq!(vec![0], generate_from_impls(&variants));
    assert!(is_distinct(&"u32".to_string(), &variants));
    assert!(!is_distinct(&"f32".to_string(), &variants));
    assert!(is_distinct(&"bool".to_string(), &variants));
}

#[test]
fn markers_should_be_the_unit_variants() {
    let variants = vec![
        variant("A", None),
        variant("B", Some("u8")),
        variant("C", None),
    ];
    assert_eq!(vec![0, 2], marker_variants(&variants));
    assert!(marker_variants(&[]).is_empty());
}

#[test]
fn bitflag_ident_from_upper_should_prefix_one_byte_names_only() {
    assert_eq!("CONST_Q", bitflag_ident_from_upper("x", "Q".to_string()));
    assert_eq!("AB", bitflag_ident_from_upper("ab", "AB".to_string()));
    // 'é' is two bytes long, so it gets no prefix.
    assert_eq!("É", bitflag_ident_from_upper("é", "É".to_string()));
    assert_eq!("É", get_bitflag_ident("é"));
}
