use abac_policy::entity::{
    AttributeValue, DestinationEntity, DestinationEntityAttributeKey, Environment, SourceEntity,
    SourceEntityAttributeKey,
};
use abac_policy::error::AbacError;
use abac_policy::rule::{evaluate_policy, Condition, Effect, Expression, Policy, Rule};

fn s(x: &str) -> String {
    x.to_string()
}

fn attr(name: &str) -> Expression {
    Expression::AttributeRef(s(name))
}

fn lit(x: &str) -> Expression {
    Expression::LiteralString(s(x))
}

fn num(n: i64) -> Expression {
    Expression::LiteralNumber(n)
}

fn student() -> SourceEntity {
    SourceEntity {
        ip: s("10.0.0.1"),
        attributes: vec![
            (SourceEntityAttributeKey::Role, AttributeValue::String(s("student"))),
            (SourceEntityAttributeKey::TrustScore, AttributeValue::Number(60)),
            (
                SourceEntityAttributeKey::Groups,
                AttributeValue::StringSet(vec![s("lab"), s("club")]),
            ),
        ],
        desc: None,
    }
}

fn server() -> DestinationEntity {
    DestinationEntity {
        ip: s("10.0.1.1"),
        attributes: vec![
            (DestinationEntityAttributeKey::Type, AttributeValue::String(s("server"))),
            (DestinationEntityAttributeKey::Sensitivity, AttributeValue::Number(3)),
        ],
        desc: Some(s("file server")),
    }
}

fn rule(id: &str, effect: Effect, condition: Condition) -> Rule {
    Rule { id: s(id), description: String::new(), effect, condition }
}

fn policy(rules: Vec<Rule>, default_effect: Effect) -> Policy {
    Policy { policy_name: s("p"), description: s("d"), default_effect, rules }
}

fn role_is(r: &str) -> Condition {
    Condition::Eq { lhs: attr("Src.Role"), rhs: lit(r) }
}

#[test]
fn first_matching_rule_decides() {
    let env = Environment::new();
    let p = policy(
        vec![
            rule("r1", Effect::Deny, role_is("faculty")),
            rule("r2", Effect::Allow, role_is("student")),
            rule("r3", Effect::Deny, role_is("student")),
        ],
        Effect::Deny,
    );
    assert_eq!(evaluate_policy(&p, &student(), &server(), &env).unwrap(), Effect::Allow);
}

#[test]
fn reordering_rules_tracks_the_new_first_match() {
    let env = Environment::new();
    let p = policy(
        vec![
            rule("r3", Effect::Deny, role_is("student")),
            rule("r2", Effect::Allow, role_is("student")),
        ],
        Effect::Allow,
    );
    assert_eq!(evaluate_policy(&p, &student(), &server(), &env).unwrap(), Effect::Deny);
}

#[test]
fn no_match_gives_default() {
    let env = Environment::new();
    let p = policy(vec![rule("r1", Effect::Deny, role_is("faculty"))], Effect::Allow);
    assert_eq!(evaluate_policy(&p, &student(), &server(), &env).unwrap(), Effect::Allow);
}

#[test]
fn rule_error_aborts_policy_walk() {
    let env = Environment::new();
    let missing = Condition::Eq { lhs: attr("Src.Dept"), rhs: lit("cs") };
    let p = policy(
        vec![rule("r1", Effect::Deny, missing), rule("r2", Effect::Allow, role_is("student"))],
        Effect::Deny,
    );
    assert!(matches!(
        evaluate_policy(&p, &student(), &server(), &env),
        Err(AbacError::MissingAttribute(_))
    ));
}

#[test]
fn equality_does_not_coerce() {
    let env = Environment::new();
    let c = Condition::Eq { lhs: num(5), rhs: lit("5") };
    assert_eq!(c.evaluate(&student(), &server(), &env).unwrap(), false);
    let same = Condition::Eq { lhs: num(5), rhs: num(5) };
    assert_eq!(same.evaluate(&student(), &server(), &env).unwrap(), true);
}

#[test]
fn comparisons_need_numbers() {
    let env = Environment::new();
    let c = Condition::Gte { lhs: attr("Src.TrustScore"), rhs: num(50) };
    assert_eq!(c.evaluate(&student(), &server(), &env).unwrap(), true);
    let gt = Condition::Gt { lhs: attr("Src.TrustScore"), rhs: num(60) };
    assert_eq!(gt.evaluate(&student(), &server(), &env).unwrap(), false);
    let lt = Condition::Lt { lhs: attr("Src.TrustScore"), rhs: num(61) };
    assert_eq!(lt.evaluate(&student(), &server(), &env).unwrap(), true);
    let bad = Condition::Gte { lhs: attr("Src.Role"), rhs: num(1) };
    assert!(matches!(bad.evaluate(&student(), &server(), &env), Err(AbacError::TypeMismatch(_))));
}

#[test]
fn membership_in_sets() {
    let env = Environment::new();
    let c = Condition::In { target: lit("lab"), check_against: attr("Src.Groups") };
    assert_eq!(c.evaluate(&student(), &server(), &env).unwrap(), true);
    let c2 = Condition::InSet { value: lit("gym"), set: attr("Src.Groups") };
    assert_eq!(c2.evaluate(&student(), &server(), &env).unwrap(), false);
    let bad = Condition::In { target: attr("Src.Groups"), check_against: lit("lab") };
    assert!(matches!(bad.evaluate(&student(), &server(), &env), Err(AbacError::TypeMismatch(_))));
}

#[test]
fn and_or_identities() {
    let env = Environment::new();
    let and = Condition::And { operands: vec![] };
    let or = Condition::Or { operands: vec![] };
    assert_eq!(and.evaluate(&student(), &server(), &env).unwrap(), true);
    assert_eq!(or.evaluate(&student(), &server(), &env).unwrap(), false);
}

#[test]
fn or_short_circuits_before_an_error() {
    let env = Environment::new();
    let c = Condition::Or {
        operands: vec![role_is("student"), Condition::Eq { lhs: attr("Src.Dept"), rhs: lit("x") }],
    };
    assert_eq!(c.evaluate(&student(), &server(), &env).unwrap(), true);
}

#[test]
fn arithmetic_expressions() {
    let env = Environment::new();
    let sum = Expression::Add { operands: vec![num(2), num(3), attr("Dst.Sensitivity")] };
    assert!(matches!(sum.evaluate(&student(), &server(), &env), Ok(AttributeValue::Number(8))));
    let product = Expression::Multiply { operands: vec![num(2), num(3), num(7)] };
    assert!(matches!(product.evaluate(&student(), &server(), &env), Ok(AttributeValue::Number(42))));
    let empty_sum = Expression::Add { operands: vec![] };
    assert!(matches!(empty_sum.evaluate(&student(), &server(), &env), Ok(AttributeValue::Number(0))));
    let empty_product = Expression::Multiply { operands: vec![] };
    assert!(matches!(
        empty_product.evaluate(&student(), &server(), &env),
        Ok(AttributeValue::Number(1))
    ));
    let back_in_range = Expression::Add { operands: vec![num(i64::MAX), num(1), num(-1)] };
    assert!(matches!(
        back_in_range.evaluate(&student(), &server(), &env),
        Ok(AttributeValue::Number(i64::MAX))
    ));
    let to_min = Expression::Multiply { operands: vec![num(1 << 62), num(2), num(-1)] };
    assert!(matches!(to_min.evaluate(&student(), &server(), &env), Ok(AttributeValue::Number(i64::MIN))));
    let zero = Expression::Multiply { operands: vec![num(i64::MAX), num(i64::MAX), num(0)] };
    assert!(matches!(zero.evaluate(&student(), &server(), &env), Ok(AttributeValue::Number(0))));
    let too_big = Expression::Multiply { operands: vec![num(i64::MAX), num(2), num(1)] };
    assert!(matches!(too_big.evaluate(&student(), &server(), &env), Err(AbacError::RangeError(_))));
    let overflow = Expression::Add { operands: vec![num(i64::MAX), num(1)] };
    assert!(matches!(overflow.evaluate(&student(), &server(), &env), Err(AbacError::RangeError(_))));
    let not_number = Expression::Add { operands: vec![num(1), lit("a")] };
    assert!(matches!(
        not_number.evaluate(&student(), &server(), &env),
        Err(AbacError::TypeMismatch(_))
    ));
}

#[test]
fn references_and_environment() {
    let mut env = Environment::new();
    env.vars.push((s("Env.Hour"), AttributeValue::Number(9)));
    let hour = Expression::EnvRef(s("Env.Hour"));
    assert!(matches!(hour.evaluate(&student(), &server(), &env), Ok(AttributeValue::Number(9))));
    let missing = Expression::EnvRef(s("Env.Day"));
    assert!(matches!(
        missing.evaluate(&student(), &server(), &env),
        Err(AbacError::MissingEnvVar(_))
    ));
    let unknown = attr("Src.Height");
    assert!(matches!(unknown.evaluate(&student(), &server(), &env), Err(AbacError::UnknownKey(_))));
    let absent = attr("Dst.OwnerDept");
    assert!(matches!(
        absent.evaluate(&student(), &server(), &env),
        Err(AbacError::MissingAttribute(_))
    ));
    assert!(attr("Dst.Type").references_dst());
    assert!(!attr("Src.Role").references_dst());
    assert!(attr("Src.Role").references_src_or_env());
    assert!(hour.references_src_or_env());
    assert!(!lit("Src.Role").references_src_or_env());
}

#[test]
fn dest_only_never_drops_a_matchable_rule() {
    // Dst part holds; the Src part is unknown and so assumed satisfiable.
    let c = Condition::And {
        operands: vec![
            Condition::Eq { lhs: attr("Dst.Type"), rhs: lit("server") },
            role_is("student"),
        ],
    };
    assert!(c.references_dst());
    assert_eq!(c.evaluate_dest_only(&server()).unwrap(), true);
    assert_eq!(c.evaluate(&student(), &server(), &Environment::new()).unwrap(), true);
    // A mixed leaf is unknown, hence true.
    let mixed = Condition::Gte { lhs: attr("Src.TrustScore"), rhs: attr("Dst.Sensitivity") };
    assert_eq!(mixed.evaluate_dest_only(&server()).unwrap(), true);
}

#[test]
fn dest_only_prunes_on_destination_mismatch() {
    let c = Condition::And {
        operands: vec![
            Condition::Eq { lhs: attr("Dst.Type"), rhs: lit("printer") },
            role_is("student"),
        ],
    };
    assert_eq!(c.evaluate_dest_only(&server()).unwrap(), false);
    let or = Condition::Or {
        operands: vec![
            Condition::Eq { lhs: attr("Dst.Type"), rhs: lit("printer") },
            Condition::Eq { lhs: attr("Dst.Type"), rhs: lit("server") },
        ],
    };
    assert_eq!(or.evaluate_dest_only(&server()).unwrap(), true);
    let no_dst = Condition::Or { operands: vec![role_is("x")] };
    assert_eq!(no_dst.evaluate_dest_only(&server()).unwrap(), true);
}

#[test]
fn rule_matches_evaluates_its_condition() {
    let r = rule("r", Effect::Allow, role_is("student"));
    assert_eq!(r.matches(&student(), &server(), &Environment::new()).unwrap(), true);
}

#[test]
fn attribute_keys_parse_and_name() {
    assert_eq!(SourceEntity::parse_attribute_key("Src.Role").unwrap(), SourceEntityAttributeKey::Role);
    assert!(matches!(SourceEntity::parse_attribute_key("Src.Nope"), Err(AbacError::UnknownKey(_))));
    assert_eq!(
        DestinationEntity::parse_attribute_key("Dst.AllowedVLANs").unwrap(),
        DestinationEntityAttributeKey::AllowedVLANs
    );
    assert!(DestinationEntity::parse_attribute_key("Src.Role").is_err());
    assert_eq!(SourceEntityAttributeKey::SessionCount.name(), "Src.SessionCount");
    assert_eq!(DestinationEntityAttributeKey::OwnerDept.name(), "Dst.OwnerDept");
}

#[test]
fn or_mixing_branches_is_decided_by_its_destination_branches() {
    // The destination branch fails and the source branch is skipped, so the filter
    // answers false although a student source satisfies the condition.
    let c = Condition::Or {
        operands: vec![
            Condition::Eq { lhs: attr("Dst.Type"), rhs: lit("printer") },
            role_is("student"),
        ],
    };
    assert_eq!(c.evaluate(&student(), &server(), &Environment::new()).unwrap(), true);
    assert_eq!(c.evaluate_dest_only(&server()).unwrap(), false);
}
