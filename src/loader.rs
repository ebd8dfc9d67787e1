//! Construction of entities, policies and conditions from JSON documents in the shapes
//! the loader hands over (operator tags `AND`, `OR`, `EQ`, `GTE`, `GT`, `LT`, `IN`).
use vstd::prelude::*;

use crate::entity::{
    AttrVal, AttributeValue, DestinationEntity, DestinationEntityAttributeKey, SourceEntity,
    SourceEntityAttributeKey, dst_key_of, src_key_of,
};
use crate::encoder::{AttrIdEntry, AttrIdMap, AttrValueType};
use crate::error::AbacError;
use crate::json::{JsonValue, field, str_field};
use crate::rule::{Condition, Effect, Expression, Policy, Rule, leaf_sides};
use crate::text::{
    find_named, find_named_index, first_named, has_prefix, put_named, starts_with, str_eq,
};

verus! {

broadcast use vstd::std_specs::vec::group_vec_axioms, vstd::seq::group_seq_axioms;

/// The expression a JSON string denotes: an attribute reference, an environment
/// reference, or a literal string.
pub open spec fn string_expr(s: Seq<char>, e: Expression) -> bool {
    if has_prefix(s, "Src."@) || has_prefix(s, "Dst."@) {
        e matches Expression::AttributeRef(t) && t@ == s
    } else if has_prefix(s, "Env."@) {
        e matches Expression::EnvRef(t) && t@ == s
    } else {
        e matches Expression::LiteralString(t) && t@ == s
    }
}

/// The operands of an `Add` or `Multiply` expression.
pub open spec fn expr_operands(e: Expression) -> Seq<Expression> {
    match e {
        Expression::Add { operands } => operands@,
        Expression::Multiply { operands } => operands@,
        _ => Seq::empty(),
    }
}

/// `e` is the expression the JSON value `j` describes.
pub open spec fn expr_json(j: JsonValue, e: Expression) -> bool
    decreases j,
{
    match j {
        JsonValue::String(s) => string_expr(s@, e),
        JsonValue::Number(n) => e == Expression::LiteralNumber(n),
        JsonValue::Object(members) => match first_named(members@, "operator"@) {
            Some(i) => 0 <= i < members.len() && match members@[i].1 {
                JsonValue::String(op) => ((op@ == "ADD"@ && e is Add) || (op@ == "MULTIPLY"@
                    && e is Multiply)) && match first_named(members@, "operands"@) {
                    Some(k) => 0 <= k < members.len() && match members@[k].1 {
                        JsonValue::Array(items) => exprs_json(items@, expr_operands(e)),
                        _ => false,
                    },
                    None => false,
                },
                _ => false,
            },
            None => false,
        },
        _ => false,
    }
}

/// `es` are the expressions the JSON values `items` describe, one for one.
pub open spec fn exprs_json(items: Seq<JsonValue>, es: Seq<Expression>) -> bool
    decreases items,
{
    items.len() == es.len() && (items.len() == 0 || (exprs_json(items.drop_last(), es.drop_last())
        && expr_json(items.last(), es.last())))
}

proof fn lemma_exprs_json_elements(items: Seq<JsonValue>, es: Seq<Expression>, k: int)
    requires
        exprs_json(items, es),
        0 <= k < items.len(),
    ensures
        expr_json(items[k], es[k]),
    decreases items.len(),
{
    if k < items.len() - 1 {
        lemma_exprs_json_elements(items.drop_last(), es.drop_last(), k);
    }
}

impl Expression {
    /// Builds an expression from JSON: a string is an attribute reference (`Src.` /
    /// `Dst.`), an environment reference (`Env.`) or a literal; an integer is a literal;
    /// an object with `operator` `ADD` / `MULTIPLY` and an `operands` array is a sum /
    /// product. Anything else is a `SchemaError`.
    pub fn from_json_value(value: &JsonValue) -> (r: Result<Expression, AbacError>)
        ensures
            match r {
                Ok(e) => expr_json(*value, e),
                Err(err) => err is SchemaError && forall|e: Expression| !expr_json(*value, e),
            },
        decreases value,
    {
        match value {
            JsonValue::String(s) => {
                if starts_with(s.as_str(), "Src.") || starts_with(s.as_str(), "Dst.") {
                    Ok(Expression::AttributeRef(s.clone()))
                } else if starts_with(s.as_str(), "Env.") {
                    Ok(Expression::EnvRef(s.clone()))
                } else {
                    Ok(Expression::LiteralString(s.clone()))
                }
            },
            JsonValue::Number(n) => Ok(Expression::LiteralNumber(*n)),
            JsonValue::Object(members) => {
                let i = match find_named_index(members, "operator") {
                    Some(i) => i,
                    None => {
                        return Err(AbacError::SchemaError(String::from_str("missing operator")));
                    },
                };
                let op = match &members[i].1 {
                    JsonValue::String(op) => op,
                    _ => {
                        return Err(AbacError::SchemaError(String::from_str("operator must be a string")));
                    },
                };
                let is_add = str_eq(op.as_str(), "ADD");
                if !is_add && !str_eq(op.as_str(), "MULTIPLY") {
                    return Err(AbacError::SchemaError(op.clone()));
                }
                let k = match find_named_index(members, "operands") {
                    Some(k) => k,
                    None => {
                        return Err(AbacError::SchemaError(String::from_str("missing operands")));
                    },
                };
                let items = match &members[k].1 {
                    JsonValue::Array(items) => items,
                    _ => {
                        return Err(AbacError::SchemaError(String::from_str("operands must be an array")));
                    },
                };
                let operands = match Self::list_from_json(items) {
                    Ok(v) => v,
                    Err(err) => {
                        proof {
                            assert forall|e: Expression| !expr_json(*value, e) by {
                                if expr_json(*value, e) {
                                    assert(exprs_json(items@, expr_operands(e)));
                                }
                            }
                        }
                        return Err(err);
                    },
                };
                if is_add {
                    Ok(Expression::Add { operands })
                } else {
                    Ok(Expression::Multiply { operands })
                }
            },
            _ => Err(AbacError::SchemaError(String::from_str("unsupported expression"))),
        }
    }

    fn list_from_json(items: &Vec<JsonValue>) -> (r: Result<Vec<Expression>, AbacError>)
        ensures
            match r {
                Ok(v) => exprs_json(items@, v@),
                Err(err) => err is SchemaError && forall|es: Seq<Expression>|
                    !exprs_json(items@, es),
            },
        decreases items,
    {
        let mut out: Vec<Expression> = Vec::new();
        let mut i: usize = 0;
        proof {
            assert(items@.take(0) =~= Seq::<JsonValue>::empty());
        }
        while i < items.len()
            invariant
                i <= items.len(),
                exprs_json(items@.take(i as int), out@),
            decreases items.len() - i,
        {
            match Self::from_json_value(&items[i]) {
                Ok(e) => {
                    let ghost before = out@;
                    out.push(e);
                    proof {
                        assert(items@.take(i + 1).drop_last() =~= items@.take(i as int));
                        assert(out@.drop_last() =~= before);
                    }
                },
                Err(err) => {
                    proof {
                        assert forall|es: Seq<Expression>| !exprs_json(items@, es) by {
                            if exprs_json(items@, es) {
                                lemma_exprs_json_elements(items@, es, i as int);
                            }
                        }
                    }
                    return Err(err);
                },
            }
            i = i + 1;
        }
        proof {
            assert(items@.take(items.len() as int) =~= items@);
        }
        Ok(out)
    }
}

/// The two named members of an object describe the expressions `sides`.
pub open spec fn sides_json(
    members: Seq<(String, JsonValue)>,
    a: Seq<char>,
    b: Seq<char>,
    sides: (Expression, Expression),
) -> bool {
    find_named(members, a) matches Some(x) && find_named(members, b) matches Some(y) && expr_json(
        x,
        sides.0,
    ) && expr_json(y, sides.1)
}

/// The operands of an `And` or `Or` condition.
pub open spec fn cond_operands(c: Condition) -> Seq<Condition> {
    match c {
        Condition::And { operands } => operands@,
        Condition::Or { operands } => operands@,
        _ => Seq::empty(),
    }
}

/// `c` is the condition the JSON value `j` describes.
pub open spec fn cond_json(j: JsonValue, c: Condition) -> bool
    decreases j,
{
    match j {
        JsonValue::Object(members) => match first_named(members@, "operator"@) {
            Some(i) => 0 <= i < members.len() && match members@[i].1 {
                JsonValue::String(op) => if op@ == "AND"@ || op@ == "OR"@ {
                    ((op@ == "AND"@ && c is And) || (op@ == "OR"@ && c is Or)) && match first_named(
                        members@,
                        "operands"@,
                    ) {
                        Some(k) => 0 <= k < members.len() && match members@[k].1 {
                            JsonValue::Array(items) => conds_json(items@, cond_operands(c)),
                            _ => false,
                        },
                        None => false,
                    }
                } else if op@ == "EQ"@ {
                    c is Eq && sides_json(members@, "lhs"@, "rhs"@, leaf_sides(c))
                } else if op@ == "GTE"@ {
                    c is Gte && sides_json(members@, "lhs"@, "rhs"@, leaf_sides(c))
                } else if op@ == "GT"@ {
                    c is Gt && sides_json(members@, "lhs"@, "rhs"@, leaf_sides(c))
                } else if op@ == "LT"@ {
                    c is Lt && sides_json(members@, "lhs"@, "rhs"@, leaf_sides(c))
                } else if op@ == "IN"@ {
                    if first_named(members@, "target"@) is Some {
                        c is In && sides_json(members@, "target"@, "check_against"@, leaf_sides(c))
                    } else if first_named(members@, "value"@) is Some {
                        c is InSet && sides_json(members@, "value"@, "set"@, leaf_sides(c))
                    } else {
                        false
                    }
                } else {
                    false
                },
                _ => false,
            },
            None => false,
        },
        _ => false,
    }
}

/// `cs` are the conditions the JSON values `items` describe, one for one.
pub open spec fn conds_json(items: Seq<JsonValue>, cs: Seq<Condition>) -> bool
    decreases items,
{
    items.len() == cs.len() && (items.len() == 0 || (conds_json(items.drop_last(), cs.drop_last())
        && cond_json(items.last(), cs.last())))
}

proof fn lemma_conds_json_elements(items: Seq<JsonValue>, cs: Seq<Condition>, k: int)
    requires
        conds_json(items, cs),
        0 <= k < items.len(),
    ensures
        cond_json(items[k], cs[k]),
    decreases items.len(),
{
    if k < items.len() - 1 {
        lemma_conds_json_elements(items.drop_last(), cs.drop_last(), k);
    }
}

fn sides_from_json(members: &Vec<(String, JsonValue)>, a: &str, b: &str) -> (r: Result<
    (Expression, Expression),
    AbacError,
>)
    ensures
        match r {
            Ok(p) => sides_json(members@, a@, b@, p),
            Err(err) => err is SchemaError && forall|p: (Expression, Expression)|
                !sides_json(members@, a@, b@, p),
        },
{
    let i = match find_named_index(members, a) {
        Some(i) => i,
        None => {
            return Err(AbacError::SchemaError(a.to_string()));
        },
    };
    let k = match find_named_index(members, b) {
        Some(k) => k,
        None => {
            return Err(AbacError::SchemaError(b.to_string()));
        },
    };
    let l = Expression::from_json_value(&members[i].1)?;
    let r = Expression::from_json_value(&members[k].1)?;
    Ok((l, r))
}

impl Condition {
    /// Builds a condition from JSON: an object whose `operator` is `AND` / `OR` (with an
    /// `operands` array), `EQ` / `GTE` / `GT` / `LT` (with `lhs` and `rhs`), or `IN` (with
    /// `target` and `check_against`, else `value` and `set`). Anything else is a
    /// `SchemaError`.
    pub fn from_json_value(value: &JsonValue) -> (r: Result<Condition, AbacError>)
        ensures
            match r {
                Ok(c) => cond_json(*value, c),
                Err(err) => err is SchemaError && forall|c: Condition| !cond_json(*value, c),
            },
        decreases value,
    {
        let members = match value {
            JsonValue::Object(members) => members,
            _ => {
                return Err(AbacError::SchemaError(String::from_str("condition must be an object")));
            },
        };
        let i = match find_named_index(members, "operator") {
            Some(i) => i,
            None => {
                return Err(AbacError::SchemaError(String::from_str("missing operator")));
            },
        };
        let op = match &members[i].1 {
            JsonValue::String(op) => op,
            _ => {
                return Err(AbacError::SchemaError(String::from_str("operator must be a string")));
            },
        };
        let is_and = str_eq(op.as_str(), "AND");
        if is_and || str_eq(op.as_str(), "OR") {
            let k = match find_named_index(members, "operands") {
                Some(k) => k,
                None => {
                    return Err(AbacError::SchemaError(String::from_str("missing operands")));
                },
            };
            let items = match &members[k].1 {
                JsonValue::Array(items) => items,
                _ => {
                    return Err(AbacError::SchemaError(String::from_str("operands must be an array")));
                },
            };
            let operands = match Self::list_from_json(items) {
                Ok(v) => v,
                Err(err) => {
                    proof {
                        assert forall|c: Condition| !cond_json(*value, c) by {
                            if cond_json(*value, c) {
                                assert(conds_json(items@, cond_operands(c)));
                            }
                        }
                    }
                    return Err(err);
                },
            };
            if is_and {
                Ok(Condition::And { operands })
            } else {
                Ok(Condition::Or { operands })
            }
        } else if str_eq(op.as_str(), "EQ") {
            let (lhs, rhs) = sides_from_json(members, "lhs", "rhs")?;
            Ok(Condition::Eq { lhs, rhs })
        } else if str_eq(op.as_str(), "GTE") {
            let (lhs, rhs) = sides_from_json(members, "lhs", "rhs")?;
            Ok(Condition::Gte { lhs, rhs })
        } else if str_eq(op.as_str(), "GT") {
            let (lhs, rhs) = sides_from_json(members, "lhs", "rhs")?;
            Ok(Condition::Gt { lhs, rhs })
        } else if str_eq(op.as_str(), "LT") {
            let (lhs, rhs) = sides_from_json(members, "lhs", "rhs")?;
            Ok(Condition::Lt { lhs, rhs })
        } else if str_eq(op.as_str(), "IN") {
            if find_named_index(members, "target").is_some() {
                let (target, check_against) = sides_from_json(members, "target", "check_against")?;
                Ok(Condition::In { target, check_against })
            } else if find_named_index(members, "value").is_some() {
                let (value, set) = sides_from_json(members, "value", "set")?;
                Ok(Condition::InSet { value, set })
            } else {
                Err(AbacError::SchemaError(String::from_str("IN needs target or value")))
            }
        } else {
            Err(AbacError::SchemaError(op.clone()))
        }
    }

    fn list_from_json(items: &Vec<JsonValue>) -> (r: Result<Vec<Condition>, AbacError>)
        ensures
            match r {
                Ok(v) => conds_json(items@, v@),
                Err(err) => err is SchemaError && forall|cs: Seq<Condition>|
                    !conds_json(items@, cs),
            },
        decreases items,
    {
        let mut out: Vec<Condition> = Vec::new();
        let mut i: usize = 0;
        proof {
            assert(items@.take(0) =~= Seq::<JsonValue>::empty());
        }
        while i < items.len()
            invariant
                i <= items.len(),
                conds_json(items@.take(i as int), out@),
            decreases items.len() - i,
        {
            match Self::from_json_value(&items[i]) {
                Ok(c) => {
                    let ghost before = out@;
                    out.push(c);
                    proof {
                        assert(items@.take(i + 1).drop_last() =~= items@.take(i as int));
                        assert(out@.drop_last() =~= before);
                    }
                },
                Err(err) => {
                    proof {
                        assert forall|cs: Seq<Condition>| !conds_json(items@, cs) by {
                            if conds_json(items@, cs) {
                                lemma_conds_json_elements(items@, cs, i as int);
                            }
                        }
                    }
                    return Err(err);
                },
            }
            i = i + 1;
        }
        proof {
            assert(items@.take(items.len() as int) =~= items@);
        }
        Ok(out)
    }
}

/// The effect written as `s` (`allow` / `deny`).
pub open spec fn effect_named(s: Seq<char>) -> Option<Effect> {
    if s == "allow"@ {
        Some(Effect::Allow)
    } else if s == "deny"@ {
        Some(Effect::Deny)
    } else {
        None
    }
}

fn parse_effect(s: &String) -> (r: Result<Effect, AbacError>)
    ensures
        match r {
            Ok(e) => effect_named(s@) == Some(e),
            Err(err) => err is SchemaError && effect_named(s@) is None,
        },
{
    if str_eq(s.as_str(), "allow") {
        Ok(Effect::Allow)
    } else if str_eq(s.as_str(), "deny") {
        Ok(Effect::Deny)
    } else {
        Err(AbacError::SchemaError(s.clone()))
    }
}

/// `r` is the rule the JSON value `j` describes; a missing or non-string description
/// reads as empty.
pub open spec fn rule_json(j: JsonValue, r: Rule) -> bool {
    &&& str_field(j, "id"@) == Some(r.id@)
    &&& r.description@ == match str_field(j, "description"@) {
        Some(d) => d,
        None => Seq::empty(),
    }
    &&& str_field(j, "effect"@) matches Some(e) && effect_named(e) == Some(r.effect)
    &&& field(j, "condition"@) matches Some(c) && cond_json(c, r.condition)
}

/// `p` is the policy the JSON value `j` describes.
pub open spec fn policy_json(j: JsonValue, p: Policy) -> bool {
    &&& str_field(j, "policy_name"@) == Some(p.policy_name@)
    &&& str_field(j, "description"@) == Some(p.description@)
    &&& str_field(j, "default_effect"@) matches Some(e) && effect_named(e) == Some(p.default_effect)
    &&& field(j, "rules"@) matches Some(JsonValue::Array(items)) && items.len() == p.rules.len()
        && forall|k: int| 0 <= k < items.len() ==> rule_json(#[trigger] items@[k], p.rules@[k])
}

impl Rule {
    /// Builds a rule from JSON: `id`, `effect` and `condition` are required, `description`
    /// is optional. Anything else is a `SchemaError`.
    pub fn from_json_value(value: &JsonValue) -> (r: Result<Rule, AbacError>)
        ensures
            match r {
                Ok(rule) => rule_json(*value, rule),
                Err(err) => err is SchemaError && forall|rule: Rule| !rule_json(*value, rule),
            },
    {
        let id = match value.get_str("id") {
            Some(s) => s.clone(),
            None => {
                return Err(AbacError::SchemaError(String::from_str("missing id")));
            },
        };
        let description = match value.get_str("description") {
            Some(s) => s.clone(),
            None => String::new(),
        };
        let effect = match value.get_str("effect") {
            Some(s) => parse_effect(s)?,
            None => {
                return Err(AbacError::SchemaError(String::from_str("missing effect")));
            },
        };
        let condition = match value.get("condition") {
            Some(c) => match Condition::from_json_value(c) {
                Ok(c) => c,
                Err(err) => {
                    return Err(err);
                },
            },
            None => {
                return Err(AbacError::SchemaError(String::from_str("missing condition")));
            },
        };
        Ok(Rule { id, description, effect, condition })
    }
}

impl Policy {
    /// Builds a policy from JSON: `policy_name`, `description`, `default_effect` and a
    /// `rules` array are required. Anything else is a `SchemaError`.
    pub fn from_json_value(value: &JsonValue) -> (r: Result<Policy, AbacError>)
        ensures
            match r {
                Ok(p) => policy_json(*value, p),
                Err(err) => err is SchemaError && forall|p: Policy| !policy_json(*value, p),
            },
    {
        let policy_name = match value.get_str("policy_name") {
            Some(s) => s.clone(),
            None => {
                return Err(AbacError::SchemaError(String::from_str("missing policy_name")));
            },
        };
        let description = match value.get_str("description") {
            Some(s) => s.clone(),
            None => {
                return Err(AbacError::SchemaError(String::from_str("missing description")));
            },
        };
        let default_effect = match value.get_str("default_effect") {
            Some(s) => parse_effect(s)?,
            None => {
                return Err(AbacError::SchemaError(String::from_str("missing default_effect")));
            },
        };
        let items = match value.get("rules") {
            Some(JsonValue::Array(items)) => items,
            _ => {
                return Err(AbacError::SchemaError(String::from_str("missing rules")));
            },
        };
        let mut rules: Vec<Rule> = Vec::new();
        let mut k: usize = 0;
        while k < items.len()
            invariant
                k <= items.len(),
                rules.len() == k,
                field(*value, "rules"@) == Some(JsonValue::Array(*items)),
                forall|m: int| 0 <= m < k ==> rule_json(#[trigger] items@[m], rules@[m]),
            decreases items.len() - k,
        {
            match Rule::from_json_value(&items[k]) {
                Ok(rule) => rules.push(rule),
                Err(err) => {
                    proof {
                        assert forall|p: Policy| !policy_json(*value, p) by {
                            if policy_json(*value, p) {
                                assert(rule_json(items@[k as int], p.rules@[k as int]));
                            }
                        }
                    }
                    return Err(err);
                },
            }
            k = k + 1;
        }
        Ok(Policy { policy_name, description, default_effect, rules })
    }
}

/// `v` is the attribute value the JSON value `j` describes: a string, an integer, a
/// boolean, or an array of strings.
pub open spec fn value_json(j: JsonValue, v: AttrVal) -> bool {
    match j {
        JsonValue::String(s) => v == AttrVal::Str(s@),
        JsonValue::Number(n) => v == AttrVal::Num(n),
        JsonValue::Bool(b) => v == AttrVal::Bool(b),
        JsonValue::Array(items) => (forall|i: int| 0 <= i < items.len() ==> #[trigger] items@[i] is String)
            && v == AttrVal::Strings(items@.map_values(|x: JsonValue| x->String_0@)),
        _ => false,
    }
}

/// Reads an attribute value from JSON; anything but a string, an integer within `i64`,
/// a boolean or an array of strings is a `SchemaError`.
pub fn parse_attribute_value(val: &JsonValue) -> (r: Result<AttributeValue, AbacError>)
    ensures
        match r {
            Ok(v) => value_json(*val, v@),
            Err(err) => err is SchemaError && forall|v: AttrVal| !value_json(*val, v),
        },
{
    match val {
        JsonValue::String(s) => Ok(AttributeValue::String(s.clone())),
        JsonValue::Number(n) => Ok(AttributeValue::Number(*n)),
        JsonValue::Bool(b) => Ok(AttributeValue::Boolean(*b)),
        JsonValue::Array(items) => {
            let mut out: Vec<String> = Vec::new();
            let mut i: usize = 0;
            while i < items.len()
                invariant
                    i <= items.len(),
                    out.len() == i,
                    *val == JsonValue::Array(*items),
                    forall|k: int| 0 <= k < i ==> #[trigger] items@[k] is String && out@[k]@ == items@[k]->String_0@,
                decreases items.len() - i,
            {
                match &items[i] {
                    JsonValue::String(s) => out.push(s.clone()),
                    _ => {
                        proof {
                            assert(!(items@[i as int] is String));
                        }
                        return Err(AbacError::SchemaError(String::from_str("set members must be strings")));
                    },
                }
                i = i + 1;
            }
            proof {
                assert(out.deep_view() =~= items@.map_values(|x: JsonValue| x->String_0@));
            }
            Ok(AttributeValue::StringSet(out))
        },
        _ => Err(AbacError::SchemaError(String::from_str("unsupported attribute value"))),
    }
}

/// The optional description `d` is the optional string `s`.
pub open spec fn desc_json(s: Option<Seq<char>>, d: Option<String>) -> bool {
    match (s, d) {
        (Some(x), Some(y)) => y@ == x,
        (None, None) => true,
        _ => false,
    }
}

fn optional_desc(value: &JsonValue) -> (r: Option<String>)
    ensures
        desc_json(str_field(*value, "desc"@), r),
{
    match value.get_str("desc") {
        Some(s) => Some(s.clone()),
        None => None,
    }
}

/// `e` is the source entity the JSON value `j` describes: an `ip` string, an optional
/// `desc` string, and an `attributes` object keyed by qualified source attribute names.
pub open spec fn source_json(j: JsonValue, e: SourceEntity) -> bool {
    &&& str_field(j, "ip"@) == Some(e.ip@)
    &&& desc_json(str_field(j, "desc"@), e.desc)
    &&& field(j, "attributes"@) matches Some(JsonValue::Object(members)) && members.len()
        == e.attributes.len() && forall|i: int|
        0 <= i < members.len() ==> src_key_of((#[trigger] members@[i]).0@) == Some(
            e.attributes@[i].0,
        ) && value_json(members@[i].1, e.attributes@[i].1@)
}

/// `e` is the destination entity the JSON value `j` describes: an `ip` string, an
/// optional `desc` string, and an `attributes` object keyed by qualified destination
/// attribute names.
pub open spec fn destination_json(j: JsonValue, e: DestinationEntity) -> bool {
    &&& str_field(j, "ip"@) == Some(e.ip@)
    &&& desc_json(str_field(j, "desc"@), e.desc)
    &&& field(j, "attributes"@) matches Some(JsonValue::Object(members)) && members.len()
        == e.attributes.len() && forall|i: int|
        0 <= i < members.len() ==> dst_key_of((#[trigger] members@[i]).0@) == Some(
            e.attributes@[i].0,
        ) && value_json(members@[i].1, e.attributes@[i].1@)
}

impl SourceEntity {
    /// Builds a source entity from JSON. A missing `ip` or `attributes`, or an invalid
    /// value, is a `SchemaError`; an attribute name that is not a source key is an
    /// `UnknownKey` error.
    pub fn from_json_value(value: &JsonValue) -> (r: Result<SourceEntity, AbacError>)
        ensures
            match r {
                Ok(e) => source_json(*value, e),
                Err(err) => (err is SchemaError || err is UnknownKey) && forall|e: SourceEntity|
                    !source_json(*value, e),
            },
    {
        let ip = match value.get_str("ip") {
            Some(s) => s.clone(),
            None => {
                return Err(AbacError::SchemaError(String::from_str("missing ip")));
            },
        };
        let desc = optional_desc(value);
        let members = match value.get("attributes") {
            Some(JsonValue::Object(members)) => members,
            _ => {
                return Err(AbacError::SchemaError(String::from_str("missing attributes")));
            },
        };
        let mut attributes: Vec<(SourceEntityAttributeKey, AttributeValue)> = Vec::new();
        let mut i: usize = 0;
        while i < members.len()
            invariant
                i <= members.len(),
                attributes.len() == i,
                field(*value, "attributes"@) == Some(JsonValue::Object(*members)),
                forall|k: int|
                    0 <= k < i ==> src_key_of((#[trigger] members@[k]).0@) == Some(
                        attributes@[k].0,
                    ) && value_json(members@[k].1, attributes@[k].1@),
            decreases members.len() - i,
        {
            let key = match SourceEntity::parse_attribute_key(members[i].0.as_str()) {
                Ok(k) => k,
                Err(err) => {
                    proof {
                        assert forall|e: SourceEntity| !source_json(*value, e) by {
                            if source_json(*value, e) {
                                assert(src_key_of(members@[i as int].0@) is Some);
                            }
                        }
                    }
                    return Err(err);
                },
            };
            let v = match parse_attribute_value(&members[i].1) {
                Ok(v) => v,
                Err(err) => {
                    proof {
                        assert forall|e: SourceEntity| !source_json(*value, e) by {
                            if source_json(*value, e) {
                                assert(value_json(members@[i as int].1, e.attributes@[i as int].1@));
                            }
                        }
                    }
                    return Err(err);
                },
            };
            attributes.push((key, v));
            i = i + 1;
        }
        Ok(SourceEntity { ip, attributes, desc })
    }
}

impl DestinationEntity {
    /// Builds a destination entity from JSON. A missing `ip` or `attributes`, or an
    /// invalid value, is a `SchemaError`; an attribute name that is not a destination
    /// key is an `UnknownKey` error.
    pub fn from_json_value(value: &JsonValue) -> (r: Result<DestinationEntity, AbacError>)
        ensures
            match r {
                Ok(e) => destination_json(*value, e),
                Err(err) => (err is SchemaError || err is UnknownKey) && forall|
                    e: DestinationEntity,
                | !destination_json(*value, e),
            },
    {
        let ip = match value.get_str("ip") {
            Some(s) => s.clone(),
            None => {
                return Err(AbacError::SchemaError(String::from_str("missing ip")));
            },
        };
        let desc = optional_desc(value);
        let members = match value.get("attributes") {
            Some(JsonValue::Object(members)) => members,
            _ => {
                return Err(AbacError::SchemaError(String::from_str("missing attributes")));
            },
        };
        let mut attributes: Vec<(DestinationEntityAttributeKey, AttributeValue)> = Vec::new();
        let mut i: usize = 0;
        while i < members.len()
            invariant
                i <= members.len(),
                attributes.len() == i,
                field(*value, "attributes"@) == Some(JsonValue::Object(*members)),
                forall|k: int|
                    0 <= k < i ==> dst_key_of((#[trigger] members@[k]).0@) == Some(
                        attributes@[k].0,
                    ) && value_json(members@[k].1, attributes@[k].1@),
            decreases members.len() - i,
        {
            let key = match DestinationEntity::parse_attribute_key(members[i].0.as_str()) {
                Ok(k) => k,
                Err(err) => {
                    proof {
                        assert forall|e: DestinationEntity| !destination_json(*value, e) by {
                            if destination_json(*value, e) {
                                assert(dst_key_of(members@[i as int].0@) is Some);
                            }
                        }
                    }
                    return Err(err);
                },
            };
            let v = match parse_attribute_value(&members[i].1) {
                Ok(v) => v,
                Err(err) => {
                    proof {
                        assert forall|e: DestinationEntity| !destination_json(*value, e) by {
                            if destination_json(*value, e) {
                                assert(value_json(members@[i as int].1, e.attributes@[i as int].1@));
                            }
                        }
                    }
                    return Err(err);
                },
            };
            attributes.push((key, v));
            i = i + 1;
        }
        Ok(DestinationEntity { ip, attributes, desc })
    }
}

/// The value of a sequence of decimal digits.
pub open spec fn digits_value(s: Seq<char>) -> int
    decreases s.len(),
{
    if s.len() == 0 {
        0
    } else {
        digits_value(s.drop_last()) * 10 + (s.last() as int - '0' as int)
    }
}

/// `c` is one of `0`..`9`.
pub open spec fn is_digit(c: char) -> bool {
    '0' <= c <= '9'
}

/// Every character of `d` is a decimal digit.
pub open spec fn all_digits(d: Seq<char>) -> bool {
    forall|i: int| 0 <= i < d.len() ==> is_digit(#[trigger] d[i])
}

/// `s` without one leading `+`.
pub open spec fn unsigned_part(s: Seq<char>) -> Seq<char> {
    if s.len() > 0 && s[0] == '+' {
        s.drop_first()
    } else {
        s
    }
}

/// The unsigned 32-bit integer written as `s`: an optional `+`, then one or more decimal
/// digits whose value fits in `u32`.
pub open spec fn decimal_u32(s: Seq<char>) -> Option<u32> {
    let d = unsigned_part(s);
    if d.len() > 0 && all_digits(d) && digits_value(d) <= u32::MAX {
        Some(digits_value(d) as u32)
    } else {
        None
    }
}

proof fn lemma_digits_value_monotone(d: Seq<char>, i: int)
    requires
        0 <= i <= d.len(),
        forall|k: int| 0 <= k < d.len() ==> is_digit(#[trigger] d[k]),
    ensures
        digits_value(d.take(i)) <= digits_value(d),
        0 <= digits_value(d.take(i)),
    decreases d.len() - i,
{
    if i < d.len() {
        lemma_digits_value_monotone(d, i + 1);
        assert(d.take(i + 1).drop_last() =~= d.take(i));
        assert(is_digit(d[i]));
    } else {
        assert(d.take(i) =~= d);
    }
    lemma_digits_nonneg(d.take(i));
}

proof fn lemma_digits_nonneg(d: Seq<char>)
    requires
        forall|k: int| 0 <= k < d.len() ==> is_digit(#[trigger] d[k]),
    ensures
        0 <= digits_value(d),
    decreases d.len(),
{
    if d.len() > 0 {
        assert(is_digit(d.last()));
        lemma_digits_nonneg(d.drop_last());
    }
}

/// Parses an unsigned 32-bit decimal integer, as `u32`'s `FromStr` reads one.
pub fn parse_u32(s: &str) -> (r: Option<u32>)
    ensures
        r == decimal_u32(s@),
{
    let n = s.unicode_len();
    let mut start: usize = 0;
    if n > 0 && s.get_char(0) == '+' {
        start = 1;
    }
    let ghost d = unsigned_part(s@);
    proof {
        assert(d =~= s@.subrange(start as int, n as int));
    }
    if start >= n {
        return None;
    }
    let mut value: u32 = 0;
    let mut i: usize = start;
    while i < n
        invariant
            n == s@.len(),
            start <= i <= n,
            d =~= s@.subrange(start as int, n as int),
            d == unsigned_part(s@),
            d.len() > 0,
            forall|k: int| 0 <= k < i - start ==> is_digit(#[trigger] d[k]),
            value as int == digits_value(d.take(i - start)),
        decreases n - i,
    {
        let c = s.get_char(i);
        proof {
            assert(d[i - start] == c);
            assert(d.take(i - start + 1).drop_last() =~= d.take(i - start));
        }
        if !('0' <= c && c <= '9') {
            proof {
                assert(!is_digit(d[i - start]));
                assert(!all_digits(d));
            }
            return None;
        }
        let digit = (c as u32) - ('0' as u32);
        match value.checked_mul(10) {
            Some(v) => match v.checked_add(digit) {
                Some(w) => value = w,
                None => {
                    proof {
                        assert(digits_value(d.take(i - start + 1)) > u32::MAX);
                        if all_digits(d) {
                            lemma_digits_value_monotone(d, i - start + 1);
                        }
                    }
                    return None;
                },
            },
            None => {
                proof {
                    lemma_digits_nonneg(d.take(i - start));
                    assert(digits_value(d.take(i - start + 1)) > u32::MAX);
                    if all_digits(d) {
                        lemma_digits_value_monotone(d, i - start + 1);
                    }
                }
                return None;
            },
        }
        i = i + 1;
    }
    proof {
        assert(d.take(n - start) =~= d);
        assert(all_digits(d));
    }
    Some(value)
}

/// The identifier the schema table `members` (identifier → value) gives the value `v`:
/// the last member naming it counts.
pub open spec fn table_id(members: Seq<(String, JsonValue)>, v: Seq<char>) -> Option<u32>
    decreases members.len(),
{
    if members.len() == 0 {
        None
    } else if members.last().1 matches JsonValue::String(x) && x@ == v {
        decimal_u32(members.last().0@)
    } else {
        table_id(members.drop_last(), v)
    }
}

/// Every member of an identifier table has an identifier for name and a string for value.
pub open spec fn table_ok(members: Seq<(String, JsonValue)>) -> bool {
    forall|i: int|
        0 <= i < members.len() ==> decimal_u32((#[trigger] members[i]).0@) is Some
            && members[i].1 is String
}

/// The value type written as `s`.
pub open spec fn value_type_named(s: Seq<char>) -> Option<AttrValueType> {
    if s == "single"@ {
        Some(AttrValueType::Single)
    } else if s == "multiple"@ {
        Some(AttrValueType::Multiple)
    } else if s == "numeric"@ {
        Some(AttrValueType::Numeric)
    } else {
        None
    }
}

/// `e` is the schema entry the JSON value `j` describes: `description.type` names the
/// value type; `value` holds either integer `min` and `max`, or identifier → value pairs.
pub open spec fn entry_json(j: JsonValue, e: AttrIdEntry) -> bool {
    &&& match field(j, "description"@) {
        Some(d) => match str_field(d, "type"@) {
            Some(t) => value_type_named(t) == Some(e.value_type),
            None => false,
        },
        None => false,
    }
    &&& match field(j, "value"@) {
        Some(JsonValue::Object(members)) => if first_named(members@, "min"@) is Some
            && first_named(members@, "max"@) is Some {
            match (
                field(JsonValue::Object(members), "min"@),
                field(JsonValue::Object(members), "max"@),
            ) {
                (Some(JsonValue::Number(lo)), Some(JsonValue::Number(hi))) => e.value_to_id is None
                    && e.numeric_min == Some(lo) && e.numeric_max == Some(hi),
                _ => false,
            }
        } else {
            table_ok(members@) && e.numeric_min is None && e.numeric_max is None && match e.value_to_id {
                Some(t) => forall|v: Seq<char>|
                    #![trigger find_named(t@, v)]
                    find_named(t@, v) == table_id(members@, v),
                None => false,
            }
        },
        _ => false,
    }
}

fn parse_value_type(s: &String) -> (r: Result<AttrValueType, AbacError>)
    ensures
        match r {
            Ok(t) => value_type_named(s@) == Some(t),
            Err(err) => err is SchemaError && value_type_named(s@) is None,
        },
{
    if str_eq(s.as_str(), "single") {
        Ok(AttrValueType::Single)
    } else if str_eq(s.as_str(), "multiple") {
        Ok(AttrValueType::Multiple)
    } else if str_eq(s.as_str(), "numeric") {
        Ok(AttrValueType::Numeric)
    } else {
        Err(AbacError::SchemaError(s.clone()))
    }
}

proof fn lemma_table_id_push(members: Seq<(String, JsonValue)>, i: int, v: Seq<char>)
    requires
        0 <= i < members.len(),
    ensures
        table_id(members.take(i + 1), v) == if members[i].1 matches JsonValue::String(x) && x@
            == v {
            decimal_u32(members[i].0@)
        } else {
            table_id(members.take(i), v)
        },
{
    assert(members.take(i + 1).drop_last() =~= members.take(i));
    assert(members.take(i + 1).last() == members[i]);
}

fn parse_id_table(members: &Vec<(String, JsonValue)>) -> (r: Result<Vec<(String, u32)>, AbacError>)
    ensures
        match r {
            Ok(t) => table_ok(members@) && forall|v: Seq<char>|
                #![trigger find_named(t@, v)]
                find_named(t@, v) == table_id(members@, v),
            Err(err) => err is SchemaError && !table_ok(members@),
        },
{
    let mut table: Vec<(String, u32)> = Vec::new();
    let mut i: usize = 0;
    proof {
        assert(members@.take(0) =~= Seq::<(String, JsonValue)>::empty());
    }
    while i < members.len()
        invariant
            i <= members.len(),
            forall|k: int|
                0 <= k < i ==> decimal_u32((#[trigger] members@[k]).0@) is Some
                    && members@[k].1 is String,
            forall|v: Seq<char>|
                #![trigger find_named(table@, v)]
                find_named(table@, v) == table_id(members@.take(i as int), v),
        decreases members.len() - i,
    {
        let id = match parse_u32(members[i].0.as_str()) {
            Some(id) => id,
            None => {
                return Err(AbacError::SchemaError(members[i].0.clone()));
            },
        };
        let value = match &members[i].1 {
            JsonValue::String(x) => x.clone(),
            _ => {
                return Err(AbacError::SchemaError(String::from_str("identifier values must be strings")));
            },
        };
        let ghost before = table@;
        let ghost vv = value@;
        put_named(&mut table, value, id);
        proof {
            assert forall|v: Seq<char>|
                #![trigger find_named(table@, v)]
                find_named(table@, v) == table_id(members@.take(i + 1), v) by {
                lemma_table_id_push(members@, i as int, v);
            }
        }
        i = i + 1;
    }
    proof {
        assert(members@.take(members.len() as int) =~= members@);
    }
    Ok(table)
}

impl AttrIdEntry {
    /// Builds a schema entry from JSON. A missing or unknown `description.type`, a
    /// missing `value` object, a non-integer bound, an identifier that is not a `u32` or
    /// a non-string value is a `SchemaError`.
    pub fn from_json_value(v: &JsonValue) -> (r: Result<AttrIdEntry, AbacError>)
        ensures
            match r {
                Ok(e) => entry_json(*v, e),
                Err(err) => err is SchemaError && forall|e: AttrIdEntry| !entry_json(*v, e),
            },
    {
        let kind_name = match v.get("description") {
            Some(d) => match d.get_str("type") {
                Some(t) => t,
                None => {
                    return Err(AbacError::SchemaError(String::from_str("missing description.type")));
                },
            },
            None => {
                return Err(AbacError::SchemaError(String::from_str("missing description.type")));
            },
        };
        let value_obj = match v.get("value") {
            Some(o) => o,
            None => {
                return Err(AbacError::SchemaError(String::from_str("missing value object")));
            },
        };
        let members = match value_obj {
            JsonValue::Object(members) => members,
            _ => {
                return Err(AbacError::SchemaError(String::from_str("missing value object")));
            },
        };
        let value_type = parse_value_type(kind_name)?;
        if find_named_index(members, "min").is_some() && find_named_index(members, "max").is_some() {
            let min = match value_obj.get("min") {
                Some(JsonValue::Number(n)) => *n,
                _ => {
                    return Err(AbacError::SchemaError(String::from_str("numeric min")));
                },
            };
            let max = match value_obj.get("max") {
                Some(JsonValue::Number(n)) => *n,
                _ => {
                    return Err(AbacError::SchemaError(String::from_str("numeric max")));
                },
            };
            Ok(AttrIdEntry { value_type, value_to_id: None, numeric_min: Some(min), numeric_max: Some(max) })
        } else {
            let table = parse_id_table(members)?;
            Ok(AttrIdEntry { value_type, value_to_id: Some(table), numeric_min: None, numeric_max: None })
        }
    }
}

/// `m` is the schema the JSON value `j` describes: an object from attribute names to
/// entries, in document order.
pub open spec fn schema_json(j: JsonValue, m: AttrIdMap) -> bool {
    j matches JsonValue::Object(members) && members.len() == m.entries.len() && forall|i: int|
        0 <= i < members.len() ==> (#[trigger] members@[i]).0@ == m.entries@[i].0@ && entry_json(
            members@[i].1,
            m.entries@[i].1,
        )
}

impl AttrIdMap {
    /// Builds the attribute identifier schema from JSON; anything malformed is a
    /// `SchemaError`.
    pub fn from_json_value(json: &JsonValue) -> (r: Result<AttrIdMap, AbacError>)
        ensures
            match r {
                Ok(m) => schema_json(*json, m),
                Err(err) => err is SchemaError && forall|m: AttrIdMap| !schema_json(*json, m),
            },
    {
        let members = match json {
            JsonValue::Object(members) => members,
            _ => {
                return Err(AbacError::SchemaError(String::from_str("schema must be an object")));
            },
        };
        let mut entries: Vec<(String, AttrIdEntry)> = Vec::new();
        let mut i: usize = 0;
        while i < members.len()
            invariant
                i <= members.len(),
                *json == JsonValue::Object(*members),
                entries.len() == i,
                forall|k: int|
                    0 <= k < i ==> (#[trigger] members@[k]).0@ == entries@[k].0@ && entry_json(
                        members@[k].1,
                        entries@[k].1,
                    ),
            decreases members.len() - i,
        {
            match AttrIdEntry::from_json_value(&members[i].1) {
                Ok(e) => entries.push((members[i].0.clone(), e)),
                Err(err) => {
                    proof {
                        assert forall|m: AttrIdMap| !schema_json(*json, m) by {
                            if schema_json(*json, m) {
                                assert(entry_json(members@[i as int].1, m.entries@[i as int].1));
                            }
                        }
                    }
                    return Err(err);
                },
            }
            i = i + 1;
        }
        Ok(AttrIdMap { entries })
    }
}

} // verus!
