use abac_policy::abac_lab::{AttributeValue, Parser, ResourceAttributeKey, UserAttributeKey};
use abac_policy::error::AbacError;

#[test]
fn reads_users_resources_and_rules() {
    let mut p = Parser::new();
    p.parse_line("  # a comment").unwrap();
    p.parse_line("").unwrap();
    p.parse_line("userAttrib(csStu1, position=student, department=cs, crsTaken={cs101 cs602})")
        .unwrap();
    p.parse_line("resourceAttrib(cs101gradebook, departments={cs}, crs=cs101, type=gradebook)")
        .unwrap();
    p.parse_line("rule(; ; {readMyScores}; uid [ student)").unwrap();
    p.parse_line("something else entirely").unwrap();

    assert_eq!(p.users.len(), 1);
    let u = &p.users[0];
    assert_eq!(u.user_id, "csStu1");
    assert_eq!(u.attributes.len(), 3);
    assert_eq!(u.attributes[0].0, UserAttributeKey::Position);
    assert!(matches!(&u.attributes[0].1, AttributeValue::String(s) if s == "student"));
    assert!(matches!(&u.attributes[2].1, AttributeValue::StringSet(v) if v == &vec!["cs101".to_string(), "cs602".to_string()]));

    assert_eq!(p.resources.len(), 1);
    let r = &p.resources[0];
    assert_eq!(r.resource_id, "cs101gradebook");
    assert_eq!(r.attributes[0].0, ResourceAttributeKey::Departments);
    assert_eq!(p.rules.len(), 1);
    assert!(p.rules[0].conditions.is_empty());
}

#[test]
fn booleans_and_replaced_keys() {
    let mut p = Parser::new();
    p.parse_line("userAttrib(chair, isChair=True, position=faculty, position=staff, note)").unwrap();
    let u = &p.users[0];
    assert!(matches!(u.attributes[0].1, AttributeValue::Boolean(true)));
    assert_eq!(u.attributes.len(), 2);
    assert!(matches!(&u.attributes[1].1, AttributeValue::String(s) if s == "staff"));
}

#[test]
fn malformed_lines_fail_and_add_nothing() {
    let mut p = Parser::new();
    assert!(matches!(p.parse_line("userAttrib(x, height=3)"), Err(AbacError::UnknownKey(_))));
    assert!(p.parse_line("userAttrib(x, position=a").is_err());
    assert!(p.parse_line("rule(").is_err());
    assert!(matches!(p.parse_line("resourceAttrib(r, owner=x)"), Err(AbacError::UnknownKey(_))));
    assert!(p.users.is_empty());
    assert!(p.resources.is_empty());
    assert!(p.rules.is_empty());
}
