use abac_policy::classifier::{build_dest_requirement_bits, list_applicable_rules_per_dest_entity};
use abac_policy::encoder::{
    encode_destination_entity, encode_source_entity, encode_value, encoded_source_to_bit_arrays,
    encoded_value_to_u32, merged_requirements_to_key_bits, merged_requirements_to_key_bits_per_attr,
    numeric_to_threshold_bits, requirement_ge_to_threshold_bits, requirement_lt_to_threshold_bits,
    u32_to_bit_string, AttrIdEntry, AttrIdMap, AttrValueType, EncodedAttributeValue,
};
use abac_policy::entity::{
    AttributeValue, DestinationEntity, DestinationEntityAttributeKey, SourceEntity,
    SourceEntityAttributeKey,
};
use abac_policy::error::AbacError;
use abac_policy::requirements::{collect_src_requirements, merge_requirements, MergedRequirements, SrcRequirement};
use abac_policy::rule::{Condition, Effect, Expression, Policy, Rule};

fn s(x: &str) -> String {
    x.to_string()
}

fn attr(name: &str) -> Expression {
    Expression::AttributeRef(s(name))
}

fn lit(x: &str) -> Expression {
    Expression::LiteralString(s(x))
}

fn categorical(kind: AttrValueType, values: &[(&str, u32)]) -> AttrIdEntry {
    AttrIdEntry {
        value_type: kind,
        value_to_id: Some(values.iter().map(|(v, id)| (s(v), *id)).collect()),
        numeric_min: None,
        numeric_max: None,
    }
}

fn schema() -> AttrIdMap {
    AttrIdMap {
        entries: vec![
            (s("Src.Role"), categorical(AttrValueType::Single, &[("student", 0), ("faculty", 1)])),
            (s("Src.Dept"), categorical(AttrValueType::Single, &[("cs", 2), ("ee", 5), ("far", 40)])),
            (
                s("Src.Groups"),
                categorical(AttrValueType::Multiple, &[("lab", 0), ("club", 3), ("wide", 32)]),
            ),
            (
                s("Src.TrustScore"),
                AttrIdEntry {
                    value_type: AttrValueType::Numeric,
                    value_to_id: None,
                    numeric_min: Some(0),
                    numeric_max: Some(100),
                },
            ),
            (s("Dst.Type"), categorical(AttrValueType::Single, &[("server", 7)])),
        ],
    }
}

fn numeric(attr: &str, ge: Vec<i64>, lt: Vec<i64>) -> SrcRequirement {
    SrcRequirement::Numeric { attr: s(attr), required_ge: ge, required_lt: lt }
}

fn server() -> DestinationEntity {
    DestinationEntity {
        ip: s("10.0.1.1"),
        attributes: vec![
            (DestinationEntityAttributeKey::Type, AttributeValue::String(s("server"))),
            (DestinationEntityAttributeKey::OwnerDept, AttributeValue::String(s("cs"))),
            (DestinationEntityAttributeKey::Sensitivity, AttributeValue::Number(40)),
        ],
        desc: None,
    }
}

#[test]
fn merge_keeps_largest_lower_bound() {
    let m = merge_requirements(vec![
        numeric("Src.TrustScore", vec![10], vec![]),
        numeric("Src.TrustScore", vec![40], vec![]),
        numeric("Src.TrustScore", vec![25], vec![]),
    ])
    .unwrap();
    assert_eq!(m.trust_score_required_ge, vec![40]);
    assert!(m.trust_score_required_lt.is_empty());
}

#[test]
fn merge_keeps_smallest_upper_bound() {
    let m = merge_requirements(vec![
        numeric("Src.TrustScore", vec![], vec![90]),
        numeric("Src.TrustScore", vec![], vec![60]),
    ])
    .unwrap();
    assert_eq!(m.trust_score_required_lt, vec![60]);
    assert!(m.trust_score_required_ge.is_empty());
}

#[test]
fn merge_collects_categorical_values_without_duplicates() {
    let m = merge_requirements(vec![
        SrcRequirement::Exact { attr: s("Src.Role"), value: AttributeValue::String(s("faculty")) },
        SrcRequirement::Exact { attr: s("Src.Role"), value: AttributeValue::String(s("student")) },
        SrcRequirement::Exact { attr: s("Src.Role"), value: AttributeValue::String(s("faculty")) },
        SrcRequirement::Exact { attr: s("Src.Dept"), value: AttributeValue::String(s("cs")) },
        SrcRequirement::Exact { attr: s("Src.Dept"), value: AttributeValue::Number(3) },
        SrcRequirement::Containment { attr: s("Src.Groups"), allowed_set: vec![s("lab"), s("club"), s("lab")] },
        SrcRequirement::Containment { attr: s("Src.Role"), allowed_set: vec![s("x")] },
        numeric("Src.SessionCount", vec![5], vec![9]),
    ])
    .unwrap();
    assert_eq!(m.role_allowed, vec![s("faculty"), s("student")]);
    assert_eq!(m.dept_allowed, vec![s("cs")]);
    assert_eq!(m.groups_allowed, vec![s("lab"), s("club")]);
    assert!(m.trust_score_required_ge.is_empty());
    assert!(m.trust_score_required_lt.is_empty());
}

#[test]
fn collect_pools_and_or_and_shifts_strict_bounds() {
    let c = Condition::Or {
        operands: vec![
            Condition::Eq { lhs: attr("Src.Role"), rhs: lit("faculty") },
            Condition::And {
                operands: vec![
                    Condition::Gt { lhs: attr("Src.TrustScore"), rhs: attr("Dst.Sensitivity") },
                    Condition::Lt { lhs: attr("Src.TrustScore"), rhs: Expression::LiteralNumber(90) },
                    Condition::Eq { lhs: attr("Dst.OwnerDept"), rhs: attr("Src.Dept") },
                ],
            },
        ],
    };
    let reqs = collect_src_requirements(&c, &server()).unwrap();
    assert_eq!(
        reqs,
        vec![
            SrcRequirement::Exact { attr: s("Src.Role"), value: AttributeValue::String(s("faculty")) },
            numeric("Src.TrustScore", vec![41], vec![]),
            numeric("Src.TrustScore", vec![], vec![90]),
            SrcRequirement::Exact { attr: s("Src.Dept"), value: AttributeValue::String(s("cs")) },
        ]
    );
}

#[test]
fn collect_reversed_strict_bound_and_containment() {
    let c = Condition::And {
        operands: vec![
            Condition::Gt { lhs: Expression::LiteralNumber(70), rhs: attr("Src.TrustScore") },
            Condition::In {
                target: attr("Src.Role"),
                check_against: Expression::LiteralString(s("not a set")),
            },
            Condition::InSet { value: lit("lab"), set: attr("Src.Groups") },
            Condition::Eq { lhs: attr("Src.Role"), rhs: attr("Src.Dept") },
        ],
    };
    let reqs = collect_src_requirements(&c, &server()).unwrap();
    assert_eq!(
        reqs,
        vec![
            numeric("Src.TrustScore", vec![], vec![71]),
            SrcRequirement::Containment { attr: s("Src.Groups"), allowed_set: vec![s("lab")] },
        ]
    );
}

#[test]
fn collect_surfaces_destination_errors() {
    let c = Condition::Eq { lhs: attr("Src.Role"), rhs: attr("Dst.AllowedVLANs") };
    assert!(matches!(collect_src_requirements(&c, &server()), Err(AbacError::MissingAttribute(_))));
    let overflow = Condition::Gt { lhs: attr("Src.TrustScore"), rhs: Expression::LiteralNumber(i64::MAX) };
    assert!(matches!(collect_src_requirements(&overflow, &server()), Err(AbacError::RangeError(_))));
}

#[test]
fn threshold_ladder_of_a_value() {
    let bits = numeric_to_threshold_bits(60, &[0, 50, 80]);
    assert_eq!(bits, 0b100);
    assert!(u32_to_bit_string(bits).ends_with("00100"));
    assert_eq!(numeric_to_threshold_bits(0, &[0, 50, 80]), 0b111);
    assert_eq!(numeric_to_threshold_bits(81, &[0, 50, 80]), 0);
    assert_eq!(numeric_to_threshold_bits(5, &[]), 0);
}

#[test]
fn threshold_ladder_is_monotonic() {
    let ts = [0, 10, 20, 30, 40];
    let mut previous = u32::MAX;
    for v in [-5, 0, 5, 15, 25, 35, 45] {
        let bits = numeric_to_threshold_bits(v, &ts);
        assert_eq!(bits & !previous, 0);
        previous = bits;
    }
}

#[test]
fn threshold_ladder_uses_first_32_thresholds_only() {
    let ts: Vec<i64> = (0..40).collect();
    assert_eq!(numeric_to_threshold_bits(0, &ts), u32::MAX);
    assert_eq!(requirement_ge_to_threshold_bits(35, &ts), 0);
}

#[test]
fn requirement_ladders() {
    assert_eq!(requirement_ge_to_threshold_bits(50, &[0, 50, 80]), 0b110);
    assert_eq!(requirement_lt_to_threshold_bits(50, &[0, 50, 80, 50]), 0b010);
    assert_eq!(requirement_lt_to_threshold_bits(60, &[0, 50, 80]), 0);
}

#[test]
fn bit_string_rendering() {
    assert_eq!(u32_to_bit_string(0), "0".repeat(32));
    assert_eq!(u32_to_bit_string(1 << 1), format!("{}10", "0".repeat(30)));
    assert_eq!(u32_to_bit_string(u32::MAX), "1".repeat(32));
    assert_eq!(u32_to_bit_string(0x8000_0001), format!("1{}1", "0".repeat(30)));
}

#[test]
fn encode_round_trip() {
    let map = schema();
    let cases = vec![
        ("Src.Role", AttributeValue::String(s("faculty"))),
        ("Src.TrustScore", AttributeValue::Number(77)),
        ("Src.Groups", AttributeValue::StringSet(vec![s("lab"), s("club")])),
    ];
    for (name, v) in cases {
        let encoded = encode_value(&map, name, &v).unwrap();
        let entry = map.get_entry(name).unwrap();
        let word = encoded_value_to_u32(entry, &encoded).unwrap();
        let text = u32_to_bit_string(word);
        assert_eq!(text.len(), 32);
        assert_eq!(u32::from_str_radix(&text, 2).unwrap(), word);
    }
}

#[test]
fn encode_values_and_errors() {
    let map = schema();
    assert_eq!(
        encode_value(&map, "Src.Role", &AttributeValue::String(s("faculty"))).unwrap(),
        EncodedAttributeValue::SingleId(1)
    );
    assert_eq!(
        encode_value(&map, "Src.Groups", &AttributeValue::StringSet(vec![s("club"), s("lab")])).unwrap(),
        EncodedAttributeValue::MultipleIds(vec![3, 0])
    );
    assert!(matches!(
        encode_value(&map, "Src.TrustScore", &AttributeValue::Number(101)),
        Err(AbacError::RangeError(_))
    ));
    assert!(matches!(
        encode_value(&map, "Src.Role", &AttributeValue::Number(1)),
        Err(AbacError::TypeMismatch(_))
    ));
    assert!(matches!(
        encode_value(&map, "Src.Role", &AttributeValue::String(s("dean"))),
        Err(AbacError::UnknownKey(_))
    ));
    assert!(matches!(
        encode_value(&map, "Src.Nope", &AttributeValue::String(s("x"))),
        Err(AbacError::UnknownKey(_))
    ));
    assert_eq!(map.value_to_id("Src.Dept", "ee").unwrap(), 5);
    assert!(map.value_to_id("Src.TrustScore", "ee").is_err());
}

#[test]
fn wide_identifier_is_rejected_when_packing() {
    let map = schema();
    let encoded =
        encode_value(&map, "Src.Groups", &AttributeValue::StringSet(vec![s("lab"), s("wide")])).unwrap();
    let entry = map.get_entry("Src.Groups").unwrap();
    assert!(matches!(encoded_value_to_u32(entry, &encoded), Err(AbacError::RangeError(_))));
    let fits = EncodedAttributeValue::MultipleIds(vec![0, 3]);
    assert_eq!(encoded_value_to_u32(entry, &fits).unwrap(), 0b1001);
}

#[test]
fn packing_numbers_and_mismatches() {
    let map = schema();
    let entry = map.get_entry("Src.TrustScore").unwrap();
    assert_eq!(encoded_value_to_u32(entry, &EncodedAttributeValue::Numeric(42)).unwrap(), 42);
    assert!(matches!(
        encoded_value_to_u32(entry, &EncodedAttributeValue::Numeric(-1)),
        Err(AbacError::RangeError(_))
    ));
    assert!(matches!(
        encoded_value_to_u32(entry, &EncodedAttributeValue::SingleId(1)),
        Err(AbacError::TypeMismatch(_))
    ));
}

#[test]
fn entity_encoding_and_bit_arrays() {
    let map = schema();
    let src = SourceEntity {
        ip: s("10.0.0.1"),
        attributes: vec![
            (SourceEntityAttributeKey::Role, AttributeValue::String(s("faculty"))),
            (SourceEntityAttributeKey::SessionCount, AttributeValue::Number(3)),
            (SourceEntityAttributeKey::Groups, AttributeValue::StringSet(vec![s("club")])),
        ],
        desc: None,
    };
    let encoded = encode_source_entity(&map, &src).unwrap();
    assert_eq!(encoded.len(), 2);
    let arrays =
        encoded_source_to_bit_arrays(&map, &encoded, &["Src.Groups", "Src.Dept", "Src.Role"]).unwrap();
    assert_eq!(arrays, vec![u32_to_bit_string(1 << 3), u32_to_bit_string(1)]);
    assert!(matches!(
        encoded_source_to_bit_arrays(&map, &encoded, &["Dst.Type"]),
        Err(AbacError::UnknownKey(_))
    ));
    let dst = encode_destination_entity(&map, &server()).unwrap();
    assert_eq!(dst, vec![(DestinationEntityAttributeKey::Type, EncodedAttributeValue::SingleId(7))]);
}

#[test]
fn key_bits_concatenated_and_per_attribute() {
    let map = schema();
    let merged = MergedRequirements {
        role_allowed: vec![s("faculty")],
        dept_allowed: vec![s("cs"), s("ee")],
        trust_score_required_ge: vec![50],
        trust_score_required_lt: vec![80],
        groups_allowed: vec![s("lab"), s("club")],
    };
    let order = ["Src.Role", "Src.Dept", "Src.TrustScore", "Src.Groups"];
    let thresholds = [0, 50, 80];
    let (key, sem) = merged_requirements_to_key_bits(&map, &merged, &order, &thresholds).unwrap();
    assert!(sem.use_trust_score_threshold);
    let expected = [
        u32_to_bit_string(1),
        u32_to_bit_string((1 << 2) | (1 << 5)),
        u32_to_bit_string(0),
        u32_to_bit_string(0b1001),
        u32_to_bit_string(0b110),
    ]
    .concat();
    assert_eq!(key.len(), 32 * (order.len() + 1));
    assert_eq!(key, expected);

    let (pairs, sem2) = merged_requirements_to_key_bits_per_attr(&map, &merged, &order, &thresholds).unwrap();
    assert!(sem2.use_trust_score_threshold);
    let get = |name: &str| pairs.iter().find(|(n, _)| n == name).map(|(_, b)| b.clone());
    assert_eq!(get("Src.Role"), Some(u32_to_bit_string(1)));
    assert_eq!(get("Src.Dept"), Some(u32_to_bit_string((1 << 2) | (1 << 5))));
    assert_eq!(get("Src.TrustScore.Threshold"), Some(u32_to_bit_string(0b110)));
    assert_eq!(pairs.len(), 5);
}

#[test]
fn key_bits_reject_unknown_values_in_both_forms() {
    let map = schema();
    let merged = MergedRequirements {
        role_allowed: vec![],
        dept_allowed: vec![],
        trust_score_required_ge: vec![],
        trust_score_required_lt: vec![],
        groups_allowed: vec![s("lab"), s("ghost")],
    };
    let order = ["Src.Groups", "Src.TrustScore"];
    assert!(matches!(
        merged_requirements_to_key_bits(&map, &merged, &order, &[]),
        Err(AbacError::UnknownKey(_))
    ));
    assert!(matches!(
        merged_requirements_to_key_bits_per_attr(&map, &merged, &order, &[]),
        Err(AbacError::UnknownKey(_))
    ));
}

#[test]
fn key_bits_reject_wide_identifiers_in_masks() {
    let map = schema();
    let merged = MergedRequirements {
        role_allowed: vec![],
        dept_allowed: vec![s("cs"), s("far")],
        trust_score_required_ge: vec![],
        trust_score_required_lt: vec![],
        groups_allowed: vec![],
    };
    let order = ["Src.Dept"];
    assert!(matches!(
        merged_requirements_to_key_bits(&map, &merged, &order, &[]),
        Err(AbacError::RangeError(_))
    ));
    assert!(matches!(
        merged_requirements_to_key_bits_per_attr(&map, &merged, &order, &[]),
        Err(AbacError::RangeError(_))
    ));
    // A single allowed value is its identifier itself, not a mask bit.
    let single = MergedRequirements { dept_allowed: vec![s("far")], ..merged };
    let (pairs, _) = merged_requirements_to_key_bits_per_attr(&map, &single, &order, &[]).unwrap();
    assert_eq!(pairs, vec![(s("Src.Dept"), u32_to_bit_string(40))]);
}

#[test]
fn inset_with_source_attribute_as_element() {
    let mut dst = server();
    dst.attributes.push((
        DestinationEntityAttributeKey::AllowedVLANs,
        AttributeValue::StringSet(vec![s("lab"), s("club")]),
    ));
    let c = Condition::InSet { value: attr("Src.Groups"), set: attr("Dst.AllowedVLANs") };
    assert_eq!(
        collect_src_requirements(&c, &dst).unwrap(),
        vec![SrcRequirement::Containment { attr: s("Src.Groups"), allowed_set: vec![s("lab"), s("club")] }]
    );
    let c2 = Condition::In { target: lit("lab"), check_against: attr("Src.Groups") };
    assert_eq!(
        collect_src_requirements(&c2, &dst).unwrap(),
        vec![SrcRequirement::Containment { attr: s("Src.Groups"), allowed_set: vec![s("lab")] }]
    );
}

#[test]
fn type_mismatch_names_attribute_and_shapes() {
    let map = schema();
    match encode_value(&map, "Src.Role", &AttributeValue::Boolean(true)) {
        Err(AbacError::TypeMismatch(msg)) => {
            assert_eq!(msg, "type mismatch: attribute Src.Role expects single, got boolean")
        }
        other => panic!("unexpected {:?}", other),
    }
}

fn faculty_rule() -> Rule {
    Rule {
        id: s("faculty-only"),
        description: String::new(),
        effect: Effect::Allow,
        condition: Condition::And {
            operands: vec![
                Condition::Eq { lhs: attr("Dst.Type"), rhs: lit("server") },
                Condition::Eq { lhs: attr("Src.Role"), rhs: lit("faculty") },
            ],
        },
    }
}

fn printer_rule() -> Rule {
    Rule {
        id: s("printer"),
        description: String::new(),
        effect: Effect::Deny,
        condition: Condition::Eq { lhs: attr("Dst.Type"), rhs: lit("printer") },
    }
}

#[test]
fn end_to_end_single_role_key() {
    let policies = vec![Policy {
        policy_name: s("p"),
        description: s("d"),
        default_effect: Effect::Deny,
        rules: vec![faculty_rule(), printer_rule()],
    }];
    let dests = vec![server()];
    let listed = list_applicable_rules_per_dest_entity(&policies, &dests);
    assert_eq!(listed, vec![(s("10.0.1.1"), vec![s("faculty-only")])]);

    let out = build_dest_requirement_bits(&policies, &dests, &schema(), &["Src.Role"], &[0, 50, 80]).unwrap();
    assert_eq!(out.len(), 1);
    let (ip, pairs, sem) = &out[0];
    assert_eq!(ip, "10.0.1.1");
    assert!(!sem.use_trust_score_threshold);
    // One allowed value is encoded as its identifier itself (faculty is 1).
    assert_eq!(pairs, &vec![(s("Src.Role"), u32_to_bit_string(1))]);
}

#[test]
fn end_to_end_two_roles_give_a_mask() {
    let mut both = faculty_rule();
    both.condition = Condition::Or {
        operands: vec![
            Condition::Eq { lhs: attr("Src.Role"), rhs: lit("faculty") },
            Condition::Eq { lhs: attr("Src.Role"), rhs: lit("student") },
        ],
    };
    let policies = vec![Policy {
        policy_name: s("p"),
        description: s("d"),
        default_effect: Effect::Deny,
        rules: vec![both],
    }];
    let out = build_dest_requirement_bits(&policies, &[server()], &schema(), &["Src.Role"], &[]).unwrap();
    assert_eq!(out[0].1, vec![(s("Src.Role"), u32_to_bit_string((1 << 1) | 1))]);
}

#[test]
fn merging_twice_changes_nothing() {
    let reqs = || {
        vec![
            SrcRequirement::Exact { attr: s("Src.Role"), value: AttributeValue::String(s("faculty")) },
            SrcRequirement::Containment { attr: s("Src.Groups"), allowed_set: vec![s("lab")] },
            numeric("Src.TrustScore", vec![10, 30], vec![70]),
        ]
    };
    let once = merge_requirements(reqs()).unwrap();
    let mut doubled = reqs();
    doubled.extend(reqs());
    let twice = merge_requirements(doubled).unwrap();
    assert_eq!(once.role_allowed, twice.role_allowed);
    assert_eq!(once.groups_allowed, twice.groups_allowed);
    assert_eq!(once.trust_score_required_ge, vec![30]);
    assert_eq!(twice.trust_score_required_ge, vec![30]);
    assert_eq!(twice.trust_score_required_lt, vec![70]);
}
