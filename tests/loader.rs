use abac_policy::entity::{AttributeValue, DestinationEntity, SourceEntity, SourceEntityAttributeKey};
use abac_policy::error::AbacError;
use abac_policy::json::JsonValue;
use abac_policy::loader::parse_attribute_value;
use abac_policy::rule::{Condition, Effect, Expression, Policy, Rule};

fn st(x: &str) -> JsonValue {
    JsonValue::String(x.to_string())
}

fn obj(members: Vec<(&str, JsonValue)>) -> JsonValue {
    JsonValue::Object(members.into_iter().map(|(k, v)| (k.to_string(), v)).collect())
}

#[test]
fn expressions_from_json() {
    assert!(matches!(Expression::from_json_value(&st("Src.Role")), Ok(Expression::AttributeRef(n)) if n == "Src.Role"));
    assert!(matches!(Expression::from_json_value(&st("Dst.Type")), Ok(Expression::AttributeRef(_))));
    assert!(matches!(Expression::from_json_value(&st("Env.Hour")), Ok(Expression::EnvRef(_))));
    assert!(matches!(Expression::from_json_value(&st("faculty")), Ok(Expression::LiteralString(_))));
    assert!(matches!(Expression::from_json_value(&JsonValue::Number(7)), Ok(Expression::LiteralNumber(7))));
    let add = obj(vec![("operator", st("ADD")), ("operands", JsonValue::Array(vec![JsonValue::Number(1), st("Src.TrustScore")]))]);
    assert!(matches!(Expression::from_json_value(&add), Ok(Expression::Add { operands }) if operands.len() == 2));
    let bad_op = obj(vec![("operator", st("DIV")), ("operands", JsonValue::Array(vec![]))]);
    assert!(matches!(Expression::from_json_value(&bad_op), Err(AbacError::SchemaError(_))));
    assert!(matches!(Expression::from_json_value(&JsonValue::OtherNumber), Err(AbacError::SchemaError(_))));
    assert!(matches!(Expression::from_json_value(&JsonValue::Null), Err(AbacError::SchemaError(_))));
}

#[test]
fn conditions_from_json() {
    let eq = obj(vec![("operator", st("EQ")), ("lhs", st("Src.Role")), ("rhs", st("faculty"))]);
    let gt = obj(vec![("operator", st("GT")), ("lhs", st("Src.TrustScore")), ("rhs", JsonValue::Number(50))]);
    let and = obj(vec![("operator", st("AND")), ("operands", JsonValue::Array(vec![eq, gt]))]);
    match Condition::from_json_value(&and) {
        Ok(Condition::And { operands }) => {
            assert!(matches!(operands[0], Condition::Eq { .. }));
            assert!(matches!(operands[1], Condition::Gt { .. }));
        }
        other => panic!("unexpected {:?}", other),
    }
    let in1 = obj(vec![("operator", st("IN")), ("target", st("Src.Role")), ("check_against", st("Dst.AllowedVLANs"))]);
    assert!(matches!(Condition::from_json_value(&in1), Ok(Condition::In { .. })));
    let in2 = obj(vec![("operator", st("IN")), ("value", st("lab")), ("set", st("Src.Groups"))]);
    assert!(matches!(Condition::from_json_value(&in2), Ok(Condition::InSet { .. })));
    let in3 = obj(vec![("operator", st("IN")), ("lhs", st("lab"))]);
    assert!(matches!(Condition::from_json_value(&in3), Err(AbacError::SchemaError(_))));
    let missing_rhs = obj(vec![("operator", st("LT")), ("lhs", st("Src.TrustScore"))]);
    assert!(matches!(Condition::from_json_value(&missing_rhs), Err(AbacError::SchemaError(_))));
    let unknown = obj(vec![("operator", st("XOR"))]);
    assert!(matches!(Condition::from_json_value(&unknown), Err(AbacError::SchemaError(_))));
}

#[test]
fn policies_and_rules_from_json() {
    let cond = obj(vec![("operator", st("GTE")), ("lhs", st("Src.TrustScore")), ("rhs", JsonValue::Number(80))]);
    let rule = obj(vec![("id", st("r1")), ("effect", st("allow")), ("condition", cond)]);
    let policy = obj(vec![
        ("policy_name", st("campus")),
        ("description", st("demo")),
        ("default_effect", st("deny")),
        ("rules", JsonValue::Array(vec![rule])),
    ]);
    let p = Policy::from_json_value(&policy).unwrap();
    assert_eq!(p.policy_name, "campus");
    assert_eq!(p.default_effect, Effect::Deny);
    assert_eq!(p.rules.len(), 1);
    assert_eq!(p.rules[0].id, "r1");
    assert_eq!(p.rules[0].description, "");
    assert_eq!(p.rules[0].effect, Effect::Allow);

    let bad_effect = obj(vec![("id", st("r")), ("effect", st("maybe")), ("condition", obj(vec![]))]);
    assert!(matches!(Rule::from_json_value(&bad_effect), Err(AbacError::SchemaError(_))));
    let no_rules = obj(vec![("policy_name", st("p")), ("description", st("d")), ("default_effect", st("allow"))]);
    assert!(matches!(Policy::from_json_value(&no_rules), Err(AbacError::SchemaError(_))));
}

#[test]
fn entities_from_json() {
    let src = obj(vec![
        ("ip", st("10.0.0.1")),
        ("desc", st("laptop")),
        (
            "attributes",
            obj(vec![
                ("Src.Role", st("student")),
                ("Src.TrustScore", JsonValue::Number(70)),
                ("Src.Groups", JsonValue::Array(vec![st("lab"), st("club")])),
            ]),
        ),
    ]);
    let e = SourceEntity::from_json_value(&src).unwrap();
    assert_eq!(e.ip, "10.0.0.1");
    assert_eq!(e.desc.as_deref(), Some("laptop"));
    assert!(matches!(e.get_attribute(SourceEntityAttributeKey::TrustScore), Some(AttributeValue::Number(70))));
    assert!(matches!(e.get_attribute(SourceEntityAttributeKey::Dept), None));

    let unknown = obj(vec![("ip", st("x")), ("attributes", obj(vec![("Src.Height", JsonValue::Number(2))]))]);
    assert!(matches!(SourceEntity::from_json_value(&unknown), Err(AbacError::UnknownKey(_))));
    let dst = obj(vec![("ip", st("10.0.1.1")), ("attributes", obj(vec![("Dst.Type", st("server"))]))]);
    let d = DestinationEntity::from_json_value(&dst).unwrap();
    assert!(d.desc.is_none());
    let no_ip = obj(vec![("attributes", obj(vec![]))]);
    assert!(matches!(DestinationEntity::from_json_value(&no_ip), Err(AbacError::SchemaError(_))));
}

#[test]
fn attribute_values_from_json() {
    assert!(matches!(parse_attribute_value(&JsonValue::Bool(true)), Ok(AttributeValue::Boolean(true))));
    assert!(matches!(
        parse_attribute_value(&JsonValue::Array(vec![st("a"), JsonValue::Number(1)])),
        Err(AbacError::SchemaError(_))
    ));
    assert!(matches!(parse_attribute_value(&JsonValue::Null), Err(AbacError::SchemaError(_))));
}
