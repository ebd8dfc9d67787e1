//! Policy abstract syntax and its evaluation against a (source, destination,
//! environment) triple.
use vstd::prelude::*;

use crate::entity::{
    AttrVal, AttributeValue, DestinationEntity, Environment, SourceEntity, contains_str,
    dst_key_of, src_key_of,
};
use crate::error::{AbacError, ErrorKind};
use crate::text::{has_prefix, starts_with};
use crate::entity::SourceEntityAttributeKey;

verus! {

broadcast use vstd::std_specs::vec::group_vec_axioms, vstd::seq::group_seq_axioms;

/// What a rule decides.
#[derive(Debug, Clone, Copy, PartialEq, Eq, Structural)]
pub enum Effect {
    Allow,
    Deny,
}

/// A value-producing node of a condition.
#[derive(Debug)]
pub enum Expression {
    LiteralString(String),
    LiteralNumber(i64),
    /// A qualified entity attribute, `Src.X` or `Dst.X`.
    AttributeRef(String),
    /// A caller-supplied environment variable, `Env.X`.
    EnvRef(String),
    Add { operands: Vec<Expression> },
    Multiply { operands: Vec<Expression> },
}

/// The kind of result an evaluation yields, with errors reduced to their class.
pub open spec fn outcome<T, U>(r: Result<T, AbacError>, v: U) -> Result<U, ErrorKind> {
    match r {
        Ok(_) => Ok(v),
        Err(e) => Err(e.kind()),
    }
}

/// The value of an evaluation result, with errors reduced to their class.
pub open spec fn value_of(r: Result<AttributeValue, AbacError>) -> Result<AttrVal, ErrorKind> {
    match r {
        Ok(v) => Ok(v@),
        Err(e) => Err(e.kind()),
    }
}

/// A boolean evaluation result, with errors reduced to their class.
pub open spec fn bool_of(r: Result<bool, AbacError>) -> Result<bool, ErrorKind> {
    match r {
        Ok(b) => Ok(b),
        Err(e) => Err(e.kind()),
    }
}

/// The sum of `ns`.
pub open spec fn seq_sum(ns: Seq<i64>) -> int
    decreases ns.len(),
{
    if ns.len() == 0 {
        0
    } else {
        seq_sum(ns.drop_last()) + ns.last()
    }
}

/// The product of `ns`.
pub open spec fn seq_product(ns: Seq<i64>) -> int
    decreases ns.len(),
{
    if ns.len() == 0 {
        1
    } else {
        seq_product(ns.drop_last()) * ns.last()
    }
}

/// `x` lies within the range of `i64`.
pub open spec fn fits_i64(x: int) -> bool {
    i64::MIN <= x <= i64::MAX
}

/// The exact sum of `ns`, when it lies within the range of `i64`.
pub open spec fn checked_sum(ns: Seq<i64>) -> Option<i64> {
    if fits_i64(seq_sum(ns)) {
        Some(seq_sum(ns) as i64)
    } else {
        None
    }
}

/// The exact product of `ns`, when it lies within the range of `i64`.
pub open spec fn checked_product(ns: Seq<i64>) -> Option<i64> {
    if fits_i64(seq_product(ns)) {
        Some(seq_product(ns) as i64)
    } else {
        None
    }
}

/// The value a `Src.` attribute name denotes on `src`.
pub open spec fn src_ref_value(name: Seq<char>, src: SourceEntity) -> Result<AttrVal, ErrorKind> {
    match src_key_of(name) {
        None => Err(ErrorKind::UnknownKey),
        Some(k) => match src.attr(k) {
            Some(v) => Ok(v),
            None => Err(ErrorKind::MissingAttribute),
        },
    }
}

/// The value a `Dst.` attribute name denotes on `dst`.
pub open spec fn dst_ref_value(name: Seq<char>, dst: DestinationEntity) -> Result<
    AttrVal,
    ErrorKind,
> {
    match dst_key_of(name) {
        None => Err(ErrorKind::UnknownKey),
        Some(k) => match dst.attr(k) {
            Some(v) => Ok(v),
            None => Err(ErrorKind::MissingAttribute),
        },
    }
}

/// The value a qualified attribute name denotes on the given entities.
pub open spec fn attr_ref_value(name: Seq<char>, src: SourceEntity, dst: DestinationEntity) -> Result<
    AttrVal,
    ErrorKind,
> {
    if has_prefix(name, "Src."@) {
        src_ref_value(name, src)
    } else if has_prefix(name, "Dst."@) {
        dst_ref_value(name, dst)
    } else {
        Err(ErrorKind::UnknownKey)
    }
}

proof fn lemma_eval_numbers_prefix_err(
    ops: Seq<Expression>,
    j: int,
    src: SourceEntity,
    dst: DestinationEntity,
    env: Environment,
)
    requires
        0 <= j <= ops.len(),
        eval_numbers(ops.take(j), src, dst, env) is Err,
    ensures
        eval_numbers(ops, src, dst, env) == eval_numbers(ops.take(j), src, dst, env),
    decreases ops.len() - j,
{
    if j < ops.len() {
        assert(ops.take(j + 1).drop_last() =~= ops.take(j));
        lemma_eval_numbers_prefix_err(ops, j + 1, src, dst, env);
    } else {
        assert(ops.take(j) =~= ops);
    }
}

/// Evaluates an expression.
pub open spec fn eval_expr(
    e: Expression,
    src: SourceEntity,
    dst: DestinationEntity,
    env: Environment,
) -> Result<AttrVal, ErrorKind>
    decreases e,
{
    match e {
        Expression::LiteralString(s) => Ok(AttrVal::Str(s@)),
        Expression::LiteralNumber(n) => Ok(AttrVal::Num(n)),
        Expression::AttributeRef(name) => attr_ref_value(name@, src, dst),
        Expression::EnvRef(name) => match env.var(name@) {
            Some(v) => Ok(v),
            None => Err(ErrorKind::MissingEnvVar),
        },
        Expression::Add { operands } => match eval_numbers(operands@, src, dst, env) {
            Err(k) => Err(k),
            Ok(ns) => match checked_sum(ns) {
                Some(t) => Ok(AttrVal::Num(t)),
                None => Err(ErrorKind::Range),
            },
        },
        Expression::Multiply { operands } => match eval_numbers(operands@, src, dst, env) {
            Err(k) => Err(k),
            Ok(ns) => match checked_product(ns) {
                Some(t) => Ok(AttrVal::Num(t)),
                None => Err(ErrorKind::Range),
            },
        },
    }
}

/// Evaluates operands left to right, each of which must be a number.
pub open spec fn eval_numbers(
    ops: Seq<Expression>,
    src: SourceEntity,
    dst: DestinationEntity,
    env: Environment,
) -> Result<Seq<i64>, ErrorKind>
    decreases ops,
{
    if ops.len() == 0 {
        Ok(Seq::empty())
    } else {
        match eval_numbers(ops.drop_last(), src, dst, env) {
            Err(k) => Err(k),
            Ok(ns) => match eval_expr(ops.last(), src, dst, env) {
                Err(k) => Err(k),
                Ok(AttrVal::Num(n)) => Ok(ns.push(n)),
                Ok(_) => Err(ErrorKind::TypeMismatch),
            },
        }
    }
}

/// The expression mentions a `Dst.` attribute.
pub open spec fn expr_refs_dst(e: Expression) -> bool
    decreases e,
{
    match e {
        Expression::AttributeRef(name) => has_prefix(name@, "Dst."@),
        Expression::Add { operands } => any_refs_dst(operands@),
        Expression::Multiply { operands } => any_refs_dst(operands@),
        _ => false,
    }
}

/// Some expression of `ops` mentions a `Dst.` attribute.
pub open spec fn any_refs_dst(ops: Seq<Expression>) -> bool
    decreases ops,
{
    if ops.len() == 0 {
        false
    } else {
        any_refs_dst(ops.drop_last()) || expr_refs_dst(ops.last())
    }
}

/// The expression mentions a `Src.` attribute or an environment variable.
pub open spec fn expr_refs_src_or_env(e: Expression) -> bool
    decreases e,
{
    match e {
        Expression::AttributeRef(name) => has_prefix(name@, "Src."@) || has_prefix(name@, "Env."@),
        Expression::EnvRef(_) => true,
        Expression::Add { operands } => any_refs_src_or_env(operands@),
        Expression::Multiply { operands } => any_refs_src_or_env(operands@),
        _ => false,
    }
}

/// Some expression of `ops` mentions a `Src.` attribute or an environment variable.
pub open spec fn any_refs_src_or_env(ops: Seq<Expression>) -> bool
    decreases ops,
{
    if ops.len() == 0 {
        false
    } else {
        any_refs_src_or_env(ops.drop_last()) || expr_refs_src_or_env(ops.last())
    }
}

/// A boolean node of a policy's decision tree.
#[derive(Debug)]
pub enum Condition {
    And { operands: Vec<Condition> },
    Or { operands: Vec<Condition> },
    Eq { lhs: Expression, rhs: Expression },
    Gte { lhs: Expression, rhs: Expression },
    Gt { lhs: Expression, rhs: Expression },
    Lt { lhs: Expression, rhs: Expression },
    /// Membership of `target` (a string) in `check_against` (a set).
    In { target: Expression, check_against: Expression },
    /// Membership of `value` (a string) in `set` (a set).
    InSet { value: Expression, set: Expression },
}

/// A comparison or membership test, as opposed to `And` / `Or`.
pub open spec fn is_leaf(c: Condition) -> bool {
    !(c is And) && !(c is Or)
}

/// The two operand expressions of a leaf condition.
pub open spec fn leaf_sides(c: Condition) -> (Expression, Expression)
    recommends
        is_leaf(c),
{
    match c {
        Condition::Eq { lhs, rhs } => (lhs, rhs),
        Condition::Gte { lhs, rhs } => (lhs, rhs),
        Condition::Gt { lhs, rhs } => (lhs, rhs),
        Condition::Lt { lhs, rhs } => (lhs, rhs),
        Condition::In { target, check_against } => (target, check_against),
        Condition::InSet { value, set } => (value, set),
        _ => arbitrary(),
    }
}

/// What a leaf condition decides once its two sides are evaluated.
pub open spec fn leaf_decision(c: Condition, l: AttrVal, r: AttrVal) -> Result<bool, ErrorKind> {
    match c {
        Condition::Eq { .. } => Ok(l == r),
        Condition::Gte { .. } => match (l, r) {
            (AttrVal::Num(a), AttrVal::Num(b)) => Ok(a >= b),
            _ => Err(ErrorKind::TypeMismatch),
        },
        Condition::Gt { .. } => match (l, r) {
            (AttrVal::Num(a), AttrVal::Num(b)) => Ok(a > b),
            _ => Err(ErrorKind::TypeMismatch),
        },
        Condition::Lt { .. } => match (l, r) {
            (AttrVal::Num(a), AttrVal::Num(b)) => Ok(a < b),
            _ => Err(ErrorKind::TypeMismatch),
        },
        _ => match (l, r) {
            (AttrVal::Str(x), AttrVal::Strings(xs)) => Ok(xs.contains(x)),
            _ => Err(ErrorKind::TypeMismatch),
        },
    }
}

/// Evaluates both sides of a leaf condition, left first, then decides it.
pub open spec fn eval_leaf(
    c: Condition,
    src: SourceEntity,
    dst: DestinationEntity,
    env: Environment,
) -> Result<bool, ErrorKind> {
    match eval_expr(leaf_sides(c).0, src, dst, env) {
        Err(k) => Err(k),
        Ok(l) => match eval_expr(leaf_sides(c).1, src, dst, env) {
            Err(k) => Err(k),
            Ok(r) => leaf_decision(c, l, r),
        },
    }
}

/// Evaluates a condition.
pub open spec fn eval_cond(
    c: Condition,
    src: SourceEntity,
    dst: DestinationEntity,
    env: Environment,
) -> Result<bool, ErrorKind>
    decreases c,
{
    match c {
        Condition::And { operands } => eval_all(operands@, src, dst, env),
        Condition::Or { operands } => eval_any(operands@, src, dst, env),
        _ => eval_leaf(c, src, dst, env),
    }
}

/// Conjunction with left-to-right short-circuit: the first false or failing operand decides.
pub open spec fn eval_all(
    ops: Seq<Condition>,
    src: SourceEntity,
    dst: DestinationEntity,
    env: Environment,
) -> Result<bool, ErrorKind>
    decreases ops,
{
    if ops.len() == 0 {
        Ok(true)
    } else {
        match eval_all(ops.drop_last(), src, dst, env) {
            Ok(true) => eval_cond(ops.last(), src, dst, env),
            other => other,
        }
    }
}

/// Disjunction with left-to-right short-circuit: the first true or failing operand decides.
pub open spec fn eval_any(
    ops: Seq<Condition>,
    src: SourceEntity,
    dst: DestinationEntity,
    env: Environment,
) -> Result<bool, ErrorKind>
    decreases ops,
{
    if ops.len() == 0 {
        Ok(false)
    } else {
        match eval_any(ops.drop_last(), src, dst, env) {
            Ok(false) => eval_cond(ops.last(), src, dst, env),
            other => other,
        }
    }
}

/// The condition mentions a `Dst.` attribute.
pub open spec fn cond_refs_dst(c: Condition) -> bool
    decreases c,
{
    match c {
        Condition::And { operands } => any_cond_refs_dst(operands@),
        Condition::Or { operands } => any_cond_refs_dst(operands@),
        _ => expr_refs_dst(leaf_sides(c).0) || expr_refs_dst(leaf_sides(c).1),
    }
}

/// Some condition of `ops` mentions a `Dst.` attribute.
pub open spec fn any_cond_refs_dst(ops: Seq<Condition>) -> bool
    decreases ops,
{
    if ops.len() == 0 {
        false
    } else {
        any_cond_refs_dst(ops.drop_last()) || cond_refs_dst(ops.last())
    }
}

/// Destination-only evaluation of a leaf: a side that depends on the source or the
/// environment makes it unknown, which counts as satisfiable; otherwise the leaf is
/// decided on the destination alone (no source attribute or variable is read).
pub open spec fn dest_only_leaf(c: Condition, dst: DestinationEntity) -> Result<bool, ErrorKind> {
    if expr_refs_src_or_env(leaf_sides(c).0) || expr_refs_src_or_env(leaf_sides(c).1) {
        Ok(true)
    } else {
        eval_leaf(c, arbitrary(), dst, arbitrary())
    }
}

/// Destination-only evaluation of a condition.
pub open spec fn dest_only(c: Condition, dst: DestinationEntity) -> Result<bool, ErrorKind>
    decreases c,
{
    match c {
        Condition::And { operands } => dest_only_all(operands@, dst),
        Condition::Or { operands } => match dest_only_any(operands@, dst) {
            Err(k) => Err(k),
            Ok((found, has_dst)) => Ok(found || !has_dst),
        },
        _ => dest_only_leaf(c, dst),
    }
}

/// `And` under destination-only evaluation: operands without a `Dst.` reference are
/// skipped; the others must hold.
pub open spec fn dest_only_all(ops: Seq<Condition>, dst: DestinationEntity) -> Result<
    bool,
    ErrorKind,
>
    decreases ops,
{
    if ops.len() == 0 {
        Ok(true)
    } else {
        match dest_only_all(ops.drop_last(), dst) {
            Ok(true) => if cond_refs_dst(ops.last()) {
                dest_only(ops.last(), dst)
            } else {
                Ok(true)
            },
            other => other,
        }
    }
}

/// `Or` under destination-only evaluation: whether some `Dst.`-referencing operand
/// held, and whether any operand references `Dst.` at all.
pub open spec fn dest_only_any(ops: Seq<Condition>, dst: DestinationEntity) -> Result<
    (bool, bool),
    ErrorKind,
>
    decreases ops,
{
    if ops.len() == 0 {
        Ok((false, false))
    } else {
        match dest_only_any(ops.drop_last(), dst) {
            Ok((false, has_dst)) => if cond_refs_dst(ops.last()) {
                match dest_only(ops.last(), dst) {
                    Err(k) => Err(k),
                    Ok(b) => Ok((b, true)),
                }
            } else {
                Ok((false, has_dst))
            },
            other => other,
        }
    }
}

/// The magnitude of `x`.
pub open spec fn magnitude(x: int) -> int {
    if x < 0 {
        -x
    } else {
        x
    }
}

proof fn lemma_product_zero(ns: Seq<i64>, k: int)
    requires
        0 <= k < ns.len(),
        ns[k] == 0,
    ensures
        seq_product(ns) == 0,
    decreases ns.len(),
{
    if k < ns.len() - 1 {
        lemma_product_zero(ns.drop_last(), k);
    }
}

proof fn lemma_magnitude_mul(p: int, n: int)
    requires
        n != 0,
    ensures
        magnitude(p * n) >= magnitude(p),
        magnitude(p * n) == magnitude(p) * magnitude(n),
{
    if p >= 0 && n > 0 {
        assert(p * n >= p) by (nonlinear_arith)
            requires
                p >= 0,
                n > 0,
        ;
    } else if p >= 0 && n < 0 {
        assert(p * n <= -p) by (nonlinear_arith)
            requires
                p >= 0,
                n < 0,
        ;
        assert(p * n == -(p * (-n))) by (nonlinear_arith);
    } else if p < 0 && n > 0 {
        assert(p * n <= p) by (nonlinear_arith)
            requires
                p < 0,
                n > 0,
        ;
        assert(p * n == -((-p) * n)) by (nonlinear_arith);
    } else {
        assert(p * n >= -p) by (nonlinear_arith)
            requires
                p < 0,
                n < 0,
        ;
        assert(p * n == (-p) * (-n)) by (nonlinear_arith);
    }
}

proof fn lemma_product_grows(ns: Seq<i64>, j: int)
    requires
        0 <= j <= ns.len(),
        forall|k: int| 0 <= k < ns.len() ==> ns[k] != 0,
    ensures
        magnitude(seq_product(ns)) >= magnitude(seq_product(ns.take(j))),
    decreases ns.len() - j,
{
    if j < ns.len() {
        lemma_product_grows(ns, j + 1);
        assert(ns.take(j + 1).drop_last() =~= ns.take(j));
        assert(ns.take(j + 1).last() == ns[j]);
        lemma_magnitude_mul(seq_product(ns.take(j)), ns[j] as int);
    } else {
        assert(ns.take(j) =~= ns);
    }
}

/// The exact sum of `ns`, if it lies within the range of `i64`.
fn sum_of(ns: &Vec<i64>) -> (r: Option<i64>)
    ensures
        r == checked_sum(ns@),
{
    let mut total: i128 = 0;
    let mut i: usize = 0;
    while i < ns.len()
        invariant
            i <= ns.len(),
            total as int == seq_sum(ns@.take(i as int)),
            -(i as int) * 0x8000_0000_0000_0000 <= total <= (i as int) * 0x8000_0000_0000_0000,
        decreases ns.len() - i,
    {
        proof {
            assert(ns@.take(i + 1).drop_last() =~= ns@.take(i as int));
            assert(ns@.take(i + 1).last() == ns@[i as int]);
        }
        total = total + ns[i] as i128;
        i = i + 1;
    }
    proof {
        assert(ns@.take(ns.len() as int) =~= ns@);
    }
    if total < i64::MIN as i128 || total > i64::MAX as i128 {
        None
    } else {
        Some(total as i64)
    }
}

/// The exact product of `ns`, if it lies within the range of `i64`.
fn product_of(ns: &Vec<i64>) -> (r: Option<i64>)
    ensures
        r == checked_product(ns@),
{
    let mut k: usize = 0;
    while k < ns.len()
        invariant
            k <= ns.len(),
            forall|j: int| 0 <= j < k ==> ns@[j] != 0,
        decreases ns.len() - k,
    {
        if ns[k] == 0 {
            proof {
                lemma_product_zero(ns@, k as int);
            }
            return Some(0);
        }
        k = k + 1;
    }
    let mut total: i128 = 1;
    let mut i: usize = 0;
    while i < ns.len()
        invariant
            i <= ns.len(),
            forall|j: int| 0 <= j < ns.len() ==> ns@[j] != 0,
            total as int == seq_product(ns@.take(i as int)),
            -0x8000_0000_0000_0000 <= total <= 0x8000_0000_0000_0000,
        decreases ns.len() - i,
    {
        proof {
            assert(ns@.take(i + 1).drop_last() =~= ns@.take(i as int));
            assert(ns@.take(i + 1).last() == ns@[i as int]);
        }
        let n = ns[i] as i128;
        proof {
            let t = total as int;
            let m = n as int;
            assert(-0x8000_0000_0000_0000 <= m <= 0x8000_0000_0000_0000);
            assert(-0x4000_0000_0000_0000_0000_0000_0000_0000 <= t * m
                <= 0x4000_0000_0000_0000_0000_0000_0000_0000) by (nonlinear_arith)
                requires
                    -0x8000_0000_0000_0000 <= t <= 0x8000_0000_0000_0000,
                    -0x8000_0000_0000_0000 <= m <= 0x8000_0000_0000_0000,
            ;
        }
        let next = total * n;
        if next > 0x8000_0000_0000_0000 || next < -0x8000_0000_0000_0000 {
            proof {
                lemma_product_grows(ns@, i + 1);
            }
            return None;
        }
        total = next;
        i = i + 1;
    }
    proof {
        assert(ns@.take(ns.len() as int) =~= ns@);
    }
    if total < i64::MIN as i128 || total > i64::MAX as i128 {
        None
    } else {
        Some(total as i64)
    }
}

proof fn lemma_any_refs_dst_prefix(ops: Seq<Expression>, j: int)
    requires
        0 <= j <= ops.len(),
        any_refs_dst(ops.take(j)),
    ensures
        any_refs_dst(ops),
    decreases ops.len() - j,
{
    if j < ops.len() {
        assert(ops.take(j + 1).drop_last() =~= ops.take(j));
        lemma_any_refs_dst_prefix(ops, j + 1);
    } else {
        assert(ops.take(j) =~= ops);
    }
}

proof fn lemma_any_refs_src_or_env_prefix(ops: Seq<Expression>, j: int)
    requires
        0 <= j <= ops.len(),
        any_refs_src_or_env(ops.take(j)),
    ensures
        any_refs_src_or_env(ops),
    decreases ops.len() - j,
{
    if j < ops.len() {
        assert(ops.take(j + 1).drop_last() =~= ops.take(j));
        lemma_any_refs_src_or_env_prefix(ops, j + 1);
    } else {
        assert(ops.take(j) =~= ops);
    }
}

fn is_dst_name(name: &String) -> (r: bool)
    ensures
        r == has_prefix(name@, "Dst."@),
{
    starts_with(name.as_str(), "Dst.")
}

fn is_src_or_env_name(name: &String) -> (r: bool)
    ensures
        r == (has_prefix(name@, "Src."@) || has_prefix(name@, "Env."@)),
{
    starts_with(name.as_str(), "Src.") || starts_with(name.as_str(), "Env.")
}

impl Expression {
    /// Evaluates the expression against the given entities and environment.
    pub fn evaluate(
        &self,
        source: &SourceEntity,
        destination: &DestinationEntity,
        env: &Environment,
    ) -> (r: Result<AttributeValue, AbacError>)
        ensures
            value_of(r) == eval_expr(*self, *source, *destination, *env),
        decreases self,
    {
        match self {
            Expression::LiteralString(s) => Ok(AttributeValue::String(s.clone())),
            Expression::LiteralNumber(n) => Ok(AttributeValue::Number(*n)),
            Expression::AttributeRef(name) => {
                if starts_with(name.as_str(), "Src.") {
                    Self::get_source_attribute(source, name.as_str())
                } else if starts_with(name.as_str(), "Dst.") {
                    Self::get_destination_attribute(destination, name.as_str())
                } else {
                    Err(AbacError::UnknownKey(name.clone()))
                }
            },
            Expression::EnvRef(name) => match env.get(name.as_str()) {
                Some(v) => Ok(v.copy()),
                None => Err(AbacError::MissingEnvVar(name.clone())),
            },
            Expression::Add { operands } => {
                let ns = Self::evaluate_numbers(operands, source, destination, env)?;
                match sum_of(&ns) {
                    Some(t) => Ok(AttributeValue::Number(t)),
                    None => Err(AbacError::RangeError(String::from_str("sum out of range"))),
                }
            },
            Expression::Multiply { operands } => {
                let ns = Self::evaluate_numbers(operands, source, destination, env)?;
                match product_of(&ns) {
                    Some(t) => Ok(AttributeValue::Number(t)),
                    None => Err(AbacError::RangeError(String::from_str("product out of range"))),
                }
            },
        }
    }

    fn evaluate_numbers(
        operands: &Vec<Expression>,
        source: &SourceEntity,
        destination: &DestinationEntity,
        env: &Environment,
    ) -> (r: Result<Vec<i64>, AbacError>)
        ensures
            match r {
                Ok(ns) => eval_numbers(operands@, *source, *destination, *env) == Ok::<
                    Seq<i64>,
                    ErrorKind,
                >(ns@),
                Err(e) => eval_numbers(operands@, *source, *destination, *env) == Err::<
                    Seq<i64>,
                    ErrorKind,
                >(e.kind()),
            },
        decreases operands,
    {
        let mut ns: Vec<i64> = Vec::new();
        let mut i: usize = 0;
        proof {
            assert(operands@.take(0) =~= Seq::<Expression>::empty());
        }
        while i < operands.len()
            invariant
                i <= operands.len(),
                eval_numbers(operands@.take(i as int), *source, *destination, *env) == Ok::<
                    Seq<i64>,
                    ErrorKind,
                >(ns@),
            decreases operands.len() - i,
        {
            proof {
                assert(operands@.take(i + 1).drop_last() =~= operands@.take(i as int));
                assert(operands@.take(i + 1).last() == operands@[i as int]);
            }
            let v = operands[i].evaluate(source, destination, env);
            match v {
                Ok(AttributeValue::Number(n)) => ns.push(n),
                Ok(_) => {
                    proof {
                        lemma_eval_numbers_prefix_err(
                            operands@,
                            i as int + 1,
                            *source,
                            *destination,
                            *env,
                        );
                    }
                    return Err(AbacError::TypeMismatch(String::from_str("operands must be numbers")));
                },
                Err(e) => {
                    proof {
                        lemma_eval_numbers_prefix_err(
                            operands@,
                            i as int + 1,
                            *source,
                            *destination,
                            *env,
                        );
                    }
                    return Err(e);
                },
            }
            i = i + 1;
        }
        proof {
            assert(operands@.take(operands.len() as int) =~= operands@);
        }
        Ok(ns)
    }

    /// Whether the expression mentions a `Dst.` attribute.
    pub fn references_dst(&self) -> (r: bool)
        ensures
            r == expr_refs_dst(*self),
        decreases self,
    {
        match self {
            Expression::AttributeRef(name) => is_dst_name(name),
            Expression::Add { operands } => Self::any_references_dst(operands),
            Expression::Multiply { operands } => Self::any_references_dst(operands),
            _ => false,
        }
    }

    fn any_references_dst(operands: &Vec<Expression>) -> (r: bool)
        ensures
            r == any_refs_dst(operands@),
        decreases operands,
    {
        let mut i: usize = 0;
        proof {
            assert(operands@.take(0) =~= Seq::<Expression>::empty());
        }
        while i < operands.len()
            invariant
                i <= operands.len(),
                !any_refs_dst(operands@.take(i as int)),
            decreases operands.len() - i,
        {
            proof {
                assert(operands@.take(i + 1).drop_last() =~= operands@.take(i as int));
                assert(operands@.take(i + 1).last() == operands@[i as int]);
            }
            if operands[i].references_dst() {
                proof {
                    lemma_any_refs_dst_prefix(operands@, i as int + 1);
                }
                return true;
            }
            i = i + 1;
        }
        proof {
            assert(operands@.take(operands.len() as int) =~= operands@);
        }
        false
    }

    /// Whether the expression mentions a `Src.` attribute or an environment variable.
    pub fn references_src_or_env(&self) -> (r: bool)
        ensures
            r == expr_refs_src_or_env(*self),
        decreases self,
    {
        match self {
            Expression::AttributeRef(name) => is_src_or_env_name(name),
            Expression::EnvRef(_) => true,
            Expression::Add { operands } => Self::any_references_src_or_env(operands),
            Expression::Multiply { operands } => Self::any_references_src_or_env(operands),
            _ => false,
        }
    }

    fn any_references_src_or_env(operands: &Vec<Expression>) -> (r: bool)
        ensures
            r == any_refs_src_or_env(operands@),
        decreases operands,
    {
        let mut i: usize = 0;
        proof {
            assert(operands@.take(0) =~= Seq::<Expression>::empty());
        }
        while i < operands.len()
            invariant
                i <= operands.len(),
                !any_refs_src_or_env(operands@.take(i as int)),
            decreases operands.len() - i,
        {
            proof {
                assert(operands@.take(i + 1).drop_last() =~= operands@.take(i as int));
                assert(operands@.take(i + 1).last() == operands@[i as int]);
            }
            if operands[i].references_src_or_env() {
                proof {
                    lemma_any_refs_src_or_env_prefix(operands@, i as int + 1);
                }
                return true;
            }
            i = i + 1;
        }
        proof {
            assert(operands@.take(operands.len() as int) =~= operands@);
        }
        false
    }

    fn get_source_attribute(source: &SourceEntity, attr_name: &str) -> (r: Result<
        AttributeValue,
        AbacError,
    >)
        ensures
            value_of(r) == src_ref_value(attr_name@, *source),
    {
        match SourceEntity::parse_attribute_key(attr_name) {
            Err(e) => Err(e),
            Ok(k) => match source.get_attribute(k) {
                Some(v) => Ok(v.copy()),
                None => Err(AbacError::MissingAttribute(attr_name.to_string())),
            },
        }
    }

    fn get_destination_attribute(destination: &DestinationEntity, attr_name: &str) -> (r: Result<
        AttributeValue,
        AbacError,
    >)
        ensures
            value_of(r) == dst_ref_value(attr_name@, *destination),
    {
        match DestinationEntity::parse_attribute_key(attr_name) {
            Err(e) => Err(e),
            Ok(k) => match destination.get_attribute(k) {
                Some(v) => Ok(v.copy()),
                None => Err(AbacError::MissingAttribute(attr_name.to_string())),
            },
        }
    }
}

proof fn lemma_eval_all_prefix(
    ops: Seq<Condition>,
    j: int,
    src: SourceEntity,
    dst: DestinationEntity,
    env: Environment,
)
    requires
        0 <= j <= ops.len(),
        eval_all(ops.take(j), src, dst, env) != Ok::<bool, ErrorKind>(true),
    ensures
        eval_all(ops, src, dst, env) == eval_all(ops.take(j), src, dst, env),
    decreases ops.len() - j,
{
    if j < ops.len() {
        assert(ops.take(j + 1).drop_last() =~= ops.take(j));
        lemma_eval_all_prefix(ops, j + 1, src, dst, env);
    } else {
        assert(ops.take(j) =~= ops);
    }
}

proof fn lemma_eval_any_prefix(
    ops: Seq<Condition>,
    j: int,
    src: SourceEntity,
    dst: DestinationEntity,
    env: Environment,
)
    requires
        0 <= j <= ops.len(),
        eval_any(ops.take(j), src, dst, env) != Ok::<bool, ErrorKind>(false),
    ensures
        eval_any(ops, src, dst, env) == eval_any(ops.take(j), src, dst, env),
    decreases ops.len() - j,
{
    if j < ops.len() {
        assert(ops.take(j + 1).drop_last() =~= ops.take(j));
        lemma_eval_any_prefix(ops, j + 1, src, dst, env);
    } else {
        assert(ops.take(j) =~= ops);
    }
}

proof fn lemma_any_cond_refs_dst_prefix(ops: Seq<Condition>, j: int)
    requires
        0 <= j <= ops.len(),
        any_cond_refs_dst(ops.take(j)),
    ensures
        any_cond_refs_dst(ops),
    decreases ops.len() - j,
{
    if j < ops.len() {
        assert(ops.take(j + 1).drop_last() =~= ops.take(j));
        lemma_any_cond_refs_dst_prefix(ops, j + 1);
    } else {
        assert(ops.take(j) =~= ops);
    }
}

proof fn lemma_dest_only_all_prefix(ops: Seq<Condition>, j: int, dst: DestinationEntity)
    requires
        0 <= j <= ops.len(),
        dest_only_all(ops.take(j), dst) != Ok::<bool, ErrorKind>(true),
    ensures
        dest_only_all(ops, dst) == dest_only_all(ops.take(j), dst),
    decreases ops.len() - j,
{
    if j < ops.len() {
        assert(ops.take(j + 1).drop_last() =~= ops.take(j));
        lemma_dest_only_all_prefix(ops, j + 1, dst);
    } else {
        assert(ops.take(j) =~= ops);
    }
}

proof fn lemma_dest_only_any_prefix(ops: Seq<Condition>, j: int, dst: DestinationEntity)
    requires
        0 <= j <= ops.len(),
        !(dest_only_any(ops.take(j), dst) matches Ok((false, _))),
    ensures
        dest_only_any(ops, dst) == dest_only_any(ops.take(j), dst),
    decreases ops.len() - j,
{
    if j < ops.len() {
        assert(ops.take(j + 1).drop_last() =~= ops.take(j));
        lemma_dest_only_any_prefix(ops, j + 1, dst);
    } else {
        assert(ops.take(j) =~= ops);
    }
}

/// An expression that reads no source attribute and no variable has the same value
/// whatever the source and the environment.
pub proof fn lemma_eval_expr_indep(
    e: Expression,
    s1: SourceEntity,
    s2: SourceEntity,
    dst: DestinationEntity,
    v1: Environment,
    v2: Environment,
)
    requires
        !expr_refs_src_or_env(e),
    ensures
        eval_expr(e, s1, dst, v1) == eval_expr(e, s2, dst, v2),
    decreases e,
{
    match e {
        Expression::Add { operands } => {
            lemma_eval_numbers_indep(operands@, s1, s2, dst, v1, v2);
        },
        Expression::Multiply { operands } => {
            lemma_eval_numbers_indep(operands@, s1, s2, dst, v1, v2);
        },
        _ => {},
    }
}

proof fn lemma_eval_numbers_indep(
    ops: Seq<Expression>,
    s1: SourceEntity,
    s2: SourceEntity,
    dst: DestinationEntity,
    v1: Environment,
    v2: Environment,
)
    requires
        !any_refs_src_or_env(ops),
    ensures
        eval_numbers(ops, s1, dst, v1) == eval_numbers(ops, s2, dst, v2),
    decreases ops,
{
    if ops.len() > 0 {
        lemma_eval_numbers_indep(ops.drop_last(), s1, s2, dst, v1, v2);
        lemma_eval_expr_indep(ops.last(), s1, s2, dst, v1, v2);
    }
}

/// A source entity with no attributes, for destination-only evaluation.
fn dummy_source() -> (r: SourceEntity)
    ensures
        forall|k: SourceEntityAttributeKey| r.attr(k) == None::<AttrVal>,
{
    SourceEntity::new(String::new(), None)
}

impl Condition {
    /// Evaluates the condition against the given entities and environment.
    pub fn evaluate(
        &self,
        source: &SourceEntity,
        destination: &DestinationEntity,
        env: &Environment,
    ) -> (r: Result<bool, AbacError>)
        ensures
            bool_of(r) == eval_cond(*self, *source, *destination, *env),
        decreases self,
    {
        match self {
            Condition::And { operands } => Self::evaluate_all(operands, source, destination, env),
            Condition::Or { operands } => Self::evaluate_any(operands, source, destination, env),
            _ => self.evaluate_leaf(source, destination, env),
        }
    }

    fn evaluate_all(
        operands: &Vec<Condition>,
        source: &SourceEntity,
        destination: &DestinationEntity,
        env: &Environment,
    ) -> (r: Result<bool, AbacError>)
        ensures
            bool_of(r) == eval_all(operands@, *source, *destination, *env),
        decreases operands,
    {
        let mut i: usize = 0;
        proof {
            assert(operands@.take(0) =~= Seq::<Condition>::empty());
        }
        while i < operands.len()
            invariant
                i <= operands.len(),
                eval_all(operands@.take(i as int), *source, *destination, *env) == Ok::<
                    bool,
                    ErrorKind,
                >(true),
            decreases operands.len() - i,
        {
            proof {
                assert(operands@.take(i + 1).drop_last() =~= operands@.take(i as int));
                assert(operands@.take(i + 1).last() == operands@[i as int]);
            }
            let b = operands[i].evaluate(source, destination, env);
            match b {
                Ok(true) => {},
                _ => {
                    proof {
                        lemma_eval_all_prefix(operands@, i + 1, *source, *destination, *env);
                    }
                    return b;
                },
            }
            i = i + 1;
        }
        proof {
            assert(operands@.take(operands.len() as int) =~= operands@);
        }
        Ok(true)
    }

    fn evaluate_any(
        operands: &Vec<Condition>,
        source: &SourceEntity,
        destination: &DestinationEntity,
        env: &Environment,
    ) -> (r: Result<bool, AbacError>)
        ensures
            bool_of(r) == eval_any(operands@, *source, *destination, *env),
        decreases operands,
    {
        let mut i: usize = 0;
        proof {
            assert(operands@.take(0) =~= Seq::<Condition>::empty());
        }
        while i < operands.len()
            invariant
                i <= operands.len(),
                eval_any(operands@.take(i as int), *source, *destination, *env) == Ok::<
                    bool,
                    ErrorKind,
                >(false),
            decreases operands.len() - i,
        {
            proof {
                assert(operands@.take(i + 1).drop_last() =~= operands@.take(i as int));
                assert(operands@.take(i + 1).last() == operands@[i as int]);
            }
            let b = operands[i].evaluate(source, destination, env);
            match b {
                Ok(false) => {},
                _ => {
                    proof {
                        lemma_eval_any_prefix(operands@, i + 1, *source, *destination, *env);
                    }
                    return b;
                },
            }
            i = i + 1;
        }
        proof {
            assert(operands@.take(operands.len() as int) =~= operands@);
        }
        Ok(false)
    }

    /// The two operand expressions of a comparison or membership test.
    fn sides(&self) -> (r: (&Expression, &Expression))
        requires
            is_leaf(*self),
        ensures
            (*r.0, *r.1) == leaf_sides(*self),
    {
        match self {
            Condition::Eq { lhs, rhs } => (lhs, rhs),
            Condition::Gte { lhs, rhs } => (lhs, rhs),
            Condition::Gt { lhs, rhs } => (lhs, rhs),
            Condition::Lt { lhs, rhs } => (lhs, rhs),
            Condition::In { target, check_against } => (target, check_against),
            Condition::InSet { value, set } => (value, set),
            _ => vstd::pervasive::unreached(),
        }
    }

    fn evaluate_leaf(
        &self,
        source: &SourceEntity,
        destination: &DestinationEntity,
        env: &Environment,
    ) -> (r: Result<bool, AbacError>)
        requires
            is_leaf(*self),
        ensures
            bool_of(r) == eval_leaf(*self, *source, *destination, *env),
    {
        let (a, b) = self.sides();
        let l = a.evaluate(source, destination, env)?;
        let r = b.evaluate(source, destination, env)?;
        self.decide(&l, &r)
    }

    fn decide(&self, l: &AttributeValue, r: &AttributeValue) -> (res: Result<bool, AbacError>)
        requires
            is_leaf(*self),
        ensures
            bool_of(res) == leaf_decision(*self, l@, r@),
    {
        match self {
            Condition::Eq { .. } => Ok(*l == *r),
            Condition::Gte { .. } | Condition::Gt { .. } | Condition::Lt { .. } => {
                self.compare_values(l, r)
            },
            _ => match (l, r) {
                (AttributeValue::String(x), AttributeValue::StringSet(xs)) => Ok(
                    contains_str(xs, x),
                ),
                _ => Err(AbacError::TypeMismatch(String::from_str("IN needs a string and a set"))),
            },
        }
    }

    /// Numeric comparison of two evaluated sides; anything but two numbers is a type mismatch.
    fn compare_values(&self, l: &AttributeValue, r: &AttributeValue) -> (res: Result<
        bool,
        AbacError,
    >)
        requires
            self is Gte || self is Gt || self is Lt,
        ensures
            bool_of(res) == leaf_decision(*self, l@, r@),
    {
        match (l, r) {
            (AttributeValue::Number(a), AttributeValue::Number(b)) => Ok(
                match self {
                    Condition::Gte { .. } => *a >= *b,
                    Condition::Gt { .. } => *a > *b,
                    _ => *a < *b,
                },
            ),
            _ => Err(AbacError::TypeMismatch(String::from_str("comparison needs numbers"))),
        }
    }

    /// Whether the condition mentions a `Dst.` attribute anywhere.
    pub fn references_dst(&self) -> (r: bool)
        ensures
            r == cond_refs_dst(*self),
        decreases self,
    {
        match self {
            Condition::And { operands } => Self::any_references_dst(operands),
            Condition::Or { operands } => Self::any_references_dst(operands),
            _ => {
                let (a, b) = self.sides();
                a.references_dst() || b.references_dst()
            },
        }
    }

    fn any_references_dst(operands: &Vec<Condition>) -> (r: bool)
        ensures
            r == any_cond_refs_dst(operands@),
        decreases operands,
    {
        let mut i: usize = 0;
        proof {
            assert(operands@.take(0) =~= Seq::<Condition>::empty());
        }
        while i < operands.len()
            invariant
                i <= operands.len(),
                !any_cond_refs_dst(operands@.take(i as int)),
            decreases operands.len() - i,
        {
            proof {
                assert(operands@.take(i + 1).drop_last() =~= operands@.take(i as int));
                assert(operands@.take(i + 1).last() == operands@[i as int]);
            }
            if operands[i].references_dst() {
                proof {
                    lemma_any_cond_refs_dst_prefix(operands@, i as int + 1);
                }
                return true;
            }
            i = i + 1;
        }
        proof {
            assert(operands@.take(operands.len() as int) =~= operands@);
        }
        false
    }

    /// Decides, from the destination alone, whether the condition could hold for some
    /// source. A leaf that reads the source or the environment counts as satisfiable;
    /// `And` skips operands without a `Dst.` reference; `Or` holds when a `Dst.`-referencing
    /// branch holds, or when no branch references `Dst.`. Evaluating a destination-only
    /// leaf may fail. When no `Or` node mixes branches that reference `Dst.` with branches
    /// that do not, it never answers false for a condition that some source satisfies (see
    /// [`lemma_dest_only_sound`]); an `Or` that mixes them is decided by its `Dst.`
    /// branches alone and may answer false.
    pub fn evaluate_dest_only(&self, dest_entity: &DestinationEntity) -> (r: Result<
        bool,
        AbacError,
    >)
        ensures
            bool_of(r) == dest_only(*self, *dest_entity),
        decreases self,
    {
        match self {
            Condition::And { operands } => Self::dest_only_all(operands, dest_entity),
            Condition::Or { operands } => Self::dest_only_any(operands, dest_entity),
            _ => {
                let (a, b) = self.sides();
                if a.references_src_or_env() || b.references_src_or_env() {
                    return Ok(true);
                }
                let source = dummy_source();
                let env = Environment::new();
                proof {
                    lemma_eval_expr_indep(*a, source, arbitrary(), *dest_entity, env, arbitrary());
                    lemma_eval_expr_indep(*b, source, arbitrary(), *dest_entity, env, arbitrary());
                }
                self.evaluate_leaf(&source, dest_entity, &env)
            },
        }
    }

    fn dest_only_all(operands: &Vec<Condition>, dest_entity: &DestinationEntity) -> (r: Result<
        bool,
        AbacError,
    >)
        ensures
            bool_of(r) == dest_only_all(operands@, *dest_entity),
        decreases operands,
    {
        let mut i: usize = 0;
        proof {
            assert(operands@.take(0) =~= Seq::<Condition>::empty());
        }
        while i < operands.len()
            invariant
                i <= operands.len(),
                dest_only_all(operands@.take(i as int), *dest_entity) == Ok::<bool, ErrorKind>(
                    true,
                ),
            decreases operands.len() - i,
        {
            proof {
                assert(operands@.take(i + 1).drop_last() =~= operands@.take(i as int));
                assert(operands@.take(i + 1).last() == operands@[i as int]);
            }
            if operands[i].references_dst() {
                let b = operands[i].evaluate_dest_only(dest_entity);
                match b {
                    Ok(true) => {},
                    _ => {
                        proof {
                            lemma_dest_only_all_prefix(operands@, i + 1, *dest_entity);
                        }
                        return b;
                    },
                }
            }
            i = i + 1;
        }
        proof {
            assert(operands@.take(operands.len() as int) =~= operands@);
        }
        Ok(true)
    }

    fn dest_only_any(operands: &Vec<Condition>, dest_entity: &DestinationEntity) -> (r: Result<
        bool,
        AbacError,
    >)
        ensures
            bool_of(r) == match dest_only_any(operands@, *dest_entity) {
                Err(k) => Err(k),
                Ok((found, has_dst)) => Ok(found || !has_dst),
            },
        decreases operands,
    {
        let mut has_dst = false;
        let mut i: usize = 0;
        proof {
            assert(operands@.take(0) =~= Seq::<Condition>::empty());
        }
        while i < operands.len()
            invariant
                i <= operands.len(),
                dest_only_any(operands@.take(i as int), *dest_entity) == Ok::<
                    (bool, bool),
                    ErrorKind,
                >((false, has_dst)),
            decreases operands.len() - i,
        {
            proof {
                assert(operands@.take(i + 1).drop_last() =~= operands@.take(i as int));
                assert(operands@.take(i + 1).last() == operands@[i as int]);
            }
            if operands[i].references_dst() {
                has_dst = true;
                match operands[i].evaluate_dest_only(dest_entity) {
                    Ok(false) => {},
                    Ok(true) => {
                        proof {
                            lemma_dest_only_any_prefix(operands@, i + 1, *dest_entity);
                        }
                        return Ok(true);
                    },
                    Err(e) => {
                        proof {
                            lemma_dest_only_any_prefix(operands@, i + 1, *dest_entity);
                        }
                        return Err(e);
                    },
                }
            }
            i = i + 1;
        }
        proof {
            assert(operands@.take(operands.len() as int) =~= operands@);
        }
        Ok(!has_dst)
    }
}

/// A rule: when its condition holds, its effect applies.
#[derive(Debug)]
pub struct Rule {
    pub id: String,
    pub description: String,
    pub effect: Effect,
    pub condition: Condition,
}

/// An ordered list of rules with a default effect; the first matching rule wins.
#[derive(Debug)]
pub struct Policy {
    pub policy_name: String,
    pub description: String,
    pub default_effect: Effect,
    pub rules: Vec<Rule>,
}

/// The effect of the first rule of `rules` whose condition holds, if any; a failing
/// condition met before that ends the walk with its error.
pub open spec fn first_match(
    rules: Seq<Rule>,
    src: SourceEntity,
    dst: DestinationEntity,
    env: Environment,
) -> Result<Option<Effect>, ErrorKind>
    decreases rules.len(),
{
    if rules.len() == 0 {
        Ok(None)
    } else {
        match first_match(rules.drop_last(), src, dst, env) {
            Ok(None) => match eval_cond(rules.last().condition, src, dst, env) {
                Err(k) => Err(k),
                Ok(true) => Ok(Some(rules.last().effect)),
                Ok(false) => Ok(None),
            },
            other => other,
        }
    }
}

/// The decision of a policy: the first matching rule's effect, else the default.
pub open spec fn policy_decision(
    p: Policy,
    src: SourceEntity,
    dst: DestinationEntity,
    env: Environment,
) -> Result<Effect, ErrorKind> {
    match first_match(p.rules@, src, dst, env) {
        Err(k) => Err(k),
        Ok(Some(e)) => Ok(e),
        Ok(None) => Ok(p.default_effect),
    }
}

proof fn lemma_first_match_prefix(
    rules: Seq<Rule>,
    j: int,
    src: SourceEntity,
    dst: DestinationEntity,
    env: Environment,
)
    requires
        0 <= j <= rules.len(),
        first_match(rules.take(j), src, dst, env) != Ok::<Option<Effect>, ErrorKind>(None),
    ensures
        first_match(rules, src, dst, env) == first_match(rules.take(j), src, dst, env),
    decreases rules.len() - j,
{
    if j < rules.len() {
        assert(rules.take(j + 1).drop_last() =~= rules.take(j));
        lemma_first_match_prefix(rules, j + 1, src, dst, env);
    } else {
        assert(rules.take(j) =~= rules);
    }
}

proof fn lemma_first_match_none(
    rules: Seq<Rule>,
    j: int,
    src: SourceEntity,
    dst: DestinationEntity,
    env: Environment,
)
    requires
        0 <= j <= rules.len(),
        forall|k: int|
            0 <= k < j ==> eval_cond(#[trigger] rules[k].condition, src, dst, env) == Ok::<
                bool,
                ErrorKind,
            >(false),
    ensures
        first_match(rules.take(j), src, dst, env) == Ok::<Option<Effect>, ErrorKind>(None),
    decreases j,
{
    if j > 0 {
        assert(rules.take(j).drop_last() =~= rules.take(j - 1));
        lemma_first_match_none(rules, j - 1, src, dst, env);
    } else {
        assert(rules.take(j) =~= Seq::<Rule>::empty());
    }
}

/// A policy decides by the first rule whose condition is true: when the conditions of
/// rules `0..i` are false and that of rule `i` is true, the result is rule `i`'s effect.
pub proof fn lemma_first_true_rule_decides(
    p: Policy,
    src: SourceEntity,
    dst: DestinationEntity,
    env: Environment,
    i: int,
)
    requires
        0 <= i < p.rules.len(),
        forall|k: int|
            0 <= k < i ==> eval_cond(#[trigger] p.rules@[k].condition, src, dst, env) == Ok::<
                bool,
                ErrorKind,
            >(false),
        eval_cond(p.rules@[i].condition, src, dst, env) == Ok::<bool, ErrorKind>(true),
    ensures
        policy_decision(p, src, dst, env) == Ok::<Effect, ErrorKind>(p.rules@[i].effect),
{
    lemma_first_match_none(p.rules@, i, src, dst, env);
    assert(p.rules@.take(i + 1).drop_last() =~= p.rules@.take(i));
    assert(p.rules@.take(i + 1).last() == p.rules@[i]);
    lemma_first_match_prefix(p.rules@, i + 1, src, dst, env);
}

/// When no rule's condition is true (and none fails), a policy yields its default effect.
pub proof fn lemma_no_true_rule_gives_default(
    p: Policy,
    src: SourceEntity,
    dst: DestinationEntity,
    env: Environment,
)
    requires
        forall|k: int|
            0 <= k < p.rules.len() ==> eval_cond(#[trigger] p.rules@[k].condition, src, dst, env)
                == Ok::<bool, ErrorKind>(false),
    ensures
        policy_decision(p, src, dst, env) == Ok::<Effect, ErrorKind>(p.default_effect),
{
    lemma_first_match_none(p.rules@, p.rules.len() as int, src, dst, env);
    assert(p.rules@.take(p.rules.len() as int) =~= p.rules@);
}

/// An effect result, with errors reduced to their class.
pub open spec fn effect_of(r: Result<Effect, AbacError>) -> Result<Effect, ErrorKind> {
    match r {
        Ok(e) => Ok(e),
        Err(e) => Err(e.kind()),
    }
}

impl Rule {
    /// Whether the rule's condition holds for the triple.
    pub fn matches(
        &self,
        source: &SourceEntity,
        destination: &DestinationEntity,
        env: &Environment,
    ) -> (r: Result<bool, AbacError>)
        ensures
            bool_of(r) == eval_cond(self.condition, *source, *destination, *env),
    {
        self.condition.evaluate(source, destination, env)
    }
}

/// Walks the policy's rules in order and returns the first matching rule's effect, or
/// the default effect when none matches. An error of any rule met on the way is returned.
pub fn evaluate_policy(
    policy: &Policy,
    source: &SourceEntity,
    destination: &DestinationEntity,
    env: &Environment,
) -> (r: Result<Effect, AbacError>)
    ensures
        effect_of(r) == policy_decision(*policy, *source, *destination, *env),
{
    let mut i: usize = 0;
    proof {
        assert(policy.rules@.take(0) =~= Seq::<Rule>::empty());
    }
    while i < policy.rules.len()
        invariant
            i <= policy.rules.len(),
            first_match(policy.rules@.take(i as int), *source, *destination, *env) == Ok::<
                Option<Effect>,
                ErrorKind,
            >(None),
        decreases policy.rules.len() - i,
    {
        proof {
            assert(policy.rules@.take(i + 1).drop_last() =~= policy.rules@.take(i as int));
            assert(policy.rules@.take(i + 1).last() == policy.rules@[i as int]);
        }
        let rule = &policy.rules[i];
        match rule.matches(source, destination, env) {
            Ok(true) => {
                proof {
                    lemma_first_match_prefix(policy.rules@, i + 1, *source, *destination, *env);
                }
                return Ok(rule.effect);
            },
            Ok(false) => {},
            Err(e) => {
                proof {
                    lemma_first_match_prefix(policy.rules@, i + 1, *source, *destination, *env);
                }
                return Err(e);
            },
        }
        i = i + 1;
    }
    proof {
        assert(policy.rules@.take(policy.rules.len() as int) =~= policy.rules@);
    }
    Ok(policy.default_effect)
}

/// Equality does not coerce: sides that evaluate to values of different variants make
/// an `Eq` condition false, never an error.
pub proof fn lemma_eq_without_coercion(
    lhs: Expression,
    rhs: Expression,
    src: SourceEntity,
    dst: DestinationEntity,
    env: Environment,
    l: AttrVal,
    r: AttrVal,
)
    requires
        eval_expr(lhs, src, dst, env) == Ok::<AttrVal, ErrorKind>(l),
        eval_expr(rhs, src, dst, env) == Ok::<AttrVal, ErrorKind>(r),
        (l is Num && !(r is Num)) || (l is Str && !(r is Str)) || (l is Strings && !(
        r is Strings)) || (l is Bool && !(r is Bool)),
    ensures
        eval_cond(Condition::Eq { lhs, rhs }, src, dst, env) == Ok::<bool, ErrorKind>(false),
{
}

/// Every `Or` node either has all of its branches referencing `Dst.` or none of them.
pub open spec fn uniform_or(c: Condition) -> bool
    decreases c,
{
    match c {
        Condition::And { operands } => all_uniform_or(operands@),
        Condition::Or { operands } => all_uniform_or(operands@) && (all_cond_refs_dst(operands@)
            || !any_cond_refs_dst(operands@)),
        _ => true,
    }
}

/// Every condition of `ops` satisfies [`uniform_or`].
pub open spec fn all_uniform_or(ops: Seq<Condition>) -> bool
    decreases ops,
{
    if ops.len() == 0 {
        true
    } else {
        all_uniform_or(ops.drop_last()) && uniform_or(ops.last())
    }
}

/// Every condition of `ops` references `Dst.`.
pub open spec fn all_cond_refs_dst(ops: Seq<Condition>) -> bool
    decreases ops.len(),
{
    if ops.len() == 0 {
        true
    } else {
        all_cond_refs_dst(ops.drop_last()) && cond_refs_dst(ops.last())
    }
}

proof fn lemma_eval_leaf_indep(
    c: Condition,
    s1: SourceEntity,
    s2: SourceEntity,
    dst: DestinationEntity,
    v1: Environment,
    v2: Environment,
)
    requires
        !expr_refs_src_or_env(leaf_sides(c).0),
        !expr_refs_src_or_env(leaf_sides(c).1),
    ensures
        eval_leaf(c, s1, dst, v1) == eval_leaf(c, s2, dst, v2),
{
    lemma_eval_expr_indep(leaf_sides(c).0, s1, s2, dst, v1, v2);
    lemma_eval_expr_indep(leaf_sides(c).1, s1, s2, dst, v1, v2);
}

proof fn lemma_dest_only_any_no_dst(ops: Seq<Condition>, dst: DestinationEntity)
    requires
        !any_cond_refs_dst(ops),
    ensures
        dest_only_any(ops, dst) == Ok::<(bool, bool), ErrorKind>((false, false)),
    decreases ops.len(),
{
    if ops.len() > 0 {
        lemma_dest_only_any_no_dst(ops.drop_last(), dst);
    }
}

/// Destination-only evaluation never rules out a condition that some source satisfies:
/// if `c` is true for `src`, `dst` and `env`, its destination-only evaluation on `dst`
/// is not `false`. This holds for conditions whose `Or` nodes do not mix branches that
/// reference `Dst.` with branches that do not.
pub proof fn lemma_dest_only_sound(
    c: Condition,
    src: SourceEntity,
    dst: DestinationEntity,
    env: Environment,
)
    requires
        uniform_or(c),
        eval_cond(c, src, dst, env) == Ok::<bool, ErrorKind>(true),
    ensures
        dest_only(c, dst) != Ok::<bool, ErrorKind>(false),
    decreases c,
{
    match c {
        Condition::And { operands } => {
            lemma_dest_only_all_sound(operands@, src, dst, env);
        },
        Condition::Or { operands } => {
            if any_cond_refs_dst(operands@) {
                lemma_dest_only_any_sound(operands@, src, dst, env);
            } else {
                lemma_dest_only_any_no_dst(operands@, dst);
            }
        },
        _ => {
            if !expr_refs_src_or_env(leaf_sides(c).0) && !expr_refs_src_or_env(leaf_sides(c).1) {
                lemma_eval_leaf_indep(c, src, arbitrary(), dst, env, arbitrary());
            }
        },
    }
}

proof fn lemma_dest_only_all_sound(
    ops: Seq<Condition>,
    src: SourceEntity,
    dst: DestinationEntity,
    env: Environment,
)
    requires
        all_uniform_or(ops),
        eval_all(ops, src, dst, env) == Ok::<bool, ErrorKind>(true),
    ensures
        dest_only_all(ops, dst) != Ok::<bool, ErrorKind>(false),
    decreases ops,
{
    if ops.len() > 0 {
        lemma_dest_only_all_sound(ops.drop_last(), src, dst, env);
        lemma_dest_only_sound(ops.last(), src, dst, env);
    }
}

proof fn lemma_dest_only_any_sound(
    ops: Seq<Condition>,
    src: SourceEntity,
    dst: DestinationEntity,
    env: Environment,
)
    requires
        all_uniform_or(ops),
        all_cond_refs_dst(ops),
        eval_any(ops, src, dst, env) == Ok::<bool, ErrorKind>(true),
    ensures
        !(dest_only_any(ops, dst) matches Ok((false, _))),
    decreases ops,
{
    if ops.len() > 0 {
        if eval_any(ops.drop_last(), src, dst, env) == Ok::<bool, ErrorKind>(true) {
            lemma_dest_only_any_sound(ops.drop_last(), src, dst, env);
        } else {
            lemma_dest_only_sound(ops.last(), src, dst, env);
        }
    }
}

/// Corollary of [`lemma_dest_only_sound`] in the form the applicability filter uses: a
/// condition that some source satisfies, and whose destination-only evaluation does not
/// fail, evaluates to true on the destination alone.
pub proof fn lemma_satisfiable_rule_kept(
    c: Condition,
    src: SourceEntity,
    dst: DestinationEntity,
    env: Environment,
)
    requires
        uniform_or(c),
        eval_cond(c, src, dst, env) == Ok::<bool, ErrorKind>(true),
        dest_only(c, dst) is Ok,
    ensures
        dest_only(c, dst) == Ok::<bool, ErrorKind>(true),
{
    lemma_dest_only_sound(c, src, dst, env);
    let r = dest_only(c, dst);
    assert(r == Ok::<bool, ErrorKind>(r->Ok_0));
}

} // verus!
