//! Extraction of the atomic constraints a source must meet for a rule to match,
//! and their merger into one most-restrictive set per attribute.
use vstd::prelude::*;

use crate::entity::{AttrVal, AttributeValue, DestinationEntity, Environment, SourceEntity, contains_str};
use crate::error::{AbacError, ErrorKind};
use crate::rule::{Condition, Expression, eval_expr, expr_refs_src_or_env, lemma_eval_expr_indep};
use crate::text::{has_prefix, starts_with, str_eq};

verus! {

broadcast use vstd::std_specs::vec::group_vec_axioms, vstd::seq::group_seq_axioms;

/// The mathematical value of a [`SrcRequirement`].
pub enum ReqVal {
    Exact(Seq<char>, AttrVal),
    Containment(Seq<char>, Seq<Seq<char>>),
    Numeric(Seq<char>, Seq<i64>, Seq<i64>),
}

/// An atomic constraint on one source attribute.
#[derive(Debug, Clone, PartialEq)]
pub enum SrcRequirement {
    /// The attribute equals `value`.
    Exact { attr: String, value: AttributeValue },
    /// The attribute is one of `allowed_set`.
    Containment { attr: String, allowed_set: Vec<String> },
    /// The attribute is at least each of `required_ge` and below each of `required_lt`.
    Numeric { attr: String, required_ge: Vec<i64>, required_lt: Vec<i64> },
}

impl View for SrcRequirement {
    type V = ReqVal;

    open spec fn view(&self) -> ReqVal {
        match self {
            SrcRequirement::Exact { attr, value } => ReqVal::Exact(attr@, value@),
            SrcRequirement::Containment { attr, allowed_set } => ReqVal::Containment(
                attr@,
                allowed_set.deep_view(),
            ),
            SrcRequirement::Numeric { attr, required_ge, required_lt } => ReqVal::Numeric(
                attr@,
                required_ge@,
                required_lt@,
            ),
        }
    }
}

/// The values of a list of requirements.
pub open spec fn reqs_view(v: Seq<SrcRequirement>) -> Seq<ReqVal> {
    v.map_values(|r: SrcRequirement| r@)
}

/// The `Src.` attribute an expression names, when it is a bare attribute reference.
pub open spec fn bare_src(e: Expression) -> Option<Seq<char>> {
    match e {
        Expression::AttributeRef(name) => if has_prefix(name@, "Src."@) {
            Some(name@)
        } else {
            None
        },
        _ => None,
    }
}

/// The value of an expression computed from the destination alone.
pub open spec fn dst_value(e: Expression, dst: DestinationEntity) -> Result<AttrVal, ErrorKind> {
    eval_expr(e, arbitrary(), dst, arbitrary())
}

/// The requirement a numeric comparison yields once its fixed side is the number `t`;
/// `attr_left` says whether the attribute stands on the left of the operator. A strict
/// `>` is shifted by one to an inclusive bound.
pub open spec fn numeric_req(c: Condition, attr: Seq<char>, t: i64, attr_left: bool) -> Result<
    Seq<ReqVal>,
    ErrorKind,
> {
    match c {
        Condition::Gte { .. } => Ok(seq![ReqVal::Numeric(attr, seq![t], Seq::empty())]),
        Condition::Gt { .. } => if t == i64::MAX {
            Err(ErrorKind::Range)
        } else if attr_left {
            Ok(seq![ReqVal::Numeric(attr, seq![(t + 1) as i64], Seq::empty())])
        } else {
            Ok(seq![ReqVal::Numeric(attr, Seq::empty(), seq![(t + 1) as i64])])
        },
        _ => Ok(seq![ReqVal::Numeric(attr, Seq::empty(), seq![t])]),
    }
}

/// One side of a numeric comparison: `a` must be a bare source attribute and `b`
/// independent of source and environment; `None` when this side yields nothing.
pub open spec fn numeric_side(
    c: Condition,
    a: Expression,
    b: Expression,
    attr_left: bool,
    dst: DestinationEntity,
) -> Option<Result<Seq<ReqVal>, ErrorKind>> {
    if bare_src(a) is Some && !expr_refs_src_or_env(b) {
        match dst_value(b, dst) {
            Err(k) => Some(Err(k)),
            Ok(AttrVal::Num(t)) => Some(numeric_req(c, bare_src(a)->Some_0, t, attr_left)),
            Ok(_) => None,
        }
    } else {
        None
    }
}

/// The requirements a condition imposes on the source, given the destination.
pub open spec fn collect(c: Condition, dst: DestinationEntity) -> Result<Seq<ReqVal>, ErrorKind>
    decreases c,
{
    match c {
        Condition::And { operands } => collect_all(operands@, dst),
        Condition::Or { operands } => collect_all(operands@, dst),
        Condition::Eq { lhs, rhs } => if bare_src(lhs) is Some {
            if expr_refs_src_or_env(rhs) {
                Ok(Seq::empty())
            } else {
                match dst_value(rhs, dst) {
                    Err(k) => Err(k),
                    Ok(v) => Ok(seq![ReqVal::Exact(bare_src(lhs)->Some_0, v)]),
                }
            }
        } else if bare_src(rhs) is Some {
            if expr_refs_src_or_env(lhs) {
                Ok(Seq::empty())
            } else {
                match dst_value(lhs, dst) {
                    Err(k) => Err(k),
                    Ok(v) => Ok(seq![ReqVal::Exact(bare_src(rhs)->Some_0, v)]),
                }
            }
        } else {
            Ok(Seq::empty())
        },
        Condition::Gte { lhs, rhs } => collect_numeric(c, lhs, rhs, dst),
        Condition::Gt { lhs, rhs } => collect_numeric(c, lhs, rhs, dst),
        Condition::Lt { lhs, rhs } => collect_numeric(c, lhs, rhs, dst),
        Condition::In { target, check_against } => collect_membership(target, check_against, dst),
        Condition::InSet { value, set } => collect_membership(value, set, dst),
    }
}

/// A membership test (`In` and `InSet` alike). When the element is a bare source
/// attribute and the set does not depend on source or environment, the attribute must be
/// one of the set's members; when the set is a bare source attribute and the element does
/// not depend on source or environment, the attribute must hold the element.
pub open spec fn collect_membership(elem: Expression, set: Expression, dst: DestinationEntity) -> Result<
    Seq<ReqVal>,
    ErrorKind,
> {
    if bare_src(elem) is Some {
        if expr_refs_src_or_env(set) {
            Ok(Seq::empty())
        } else {
            match dst_value(set, dst) {
                Err(k) => Err(k),
                Ok(AttrVal::Strings(allowed)) => Ok(
                    seq![ReqVal::Containment(bare_src(elem)->Some_0, allowed)],
                ),
                Ok(_) => Ok(Seq::empty()),
            }
        }
    } else if bare_src(set) is Some {
        if expr_refs_src_or_env(elem) {
            Ok(Seq::empty())
        } else {
            match dst_value(elem, dst) {
                Err(k) => Err(k),
                Ok(AttrVal::Str(s)) => Ok(seq![ReqVal::Containment(bare_src(set)->Some_0, seq![s])]),
                Ok(_) => Ok(Seq::empty()),
            }
        }
    } else {
        Ok(Seq::empty())
    }
}

/// A numeric comparison tries the attribute on the left first, then on the right.
pub open spec fn collect_numeric(
    c: Condition,
    lhs: Expression,
    rhs: Expression,
    dst: DestinationEntity,
) -> Result<Seq<ReqVal>, ErrorKind> {
    match numeric_side(c, lhs, rhs, true, dst) {
        Some(r) => r,
        None => match numeric_side(c, rhs, lhs, false, dst) {
            Some(r) => r,
            None => Ok(Seq::empty()),
        },
    }
}

/// The requirements of every operand, concatenated in order (for `And` and `Or` alike).
pub open spec fn collect_all(ops: Seq<Condition>, dst: DestinationEntity) -> Result<
    Seq<ReqVal>,
    ErrorKind,
>
    decreases ops,
{
    if ops.len() == 0 {
        Ok(Seq::empty())
    } else {
        match collect_all(ops.drop_last(), dst) {
            Err(k) => Err(k),
            Ok(a) => match collect(ops.last(), dst) {
                Err(k) => Err(k),
                Ok(b) => Ok(a + b),
            },
        }
    }
}

/// A requirement-list result, with errors reduced to their class.
pub open spec fn reqs_of(r: Result<Vec<SrcRequirement>, AbacError>) -> Result<
    Seq<ReqVal>,
    ErrorKind,
> {
    match r {
        Ok(v) => Ok(reqs_view(v@)),
        Err(e) => Err(e.kind()),
    }
}

proof fn lemma_collect_all_prefix_err(ops: Seq<Condition>, j: int, dst: DestinationEntity)
    requires
        0 <= j <= ops.len(),
        collect_all(ops.take(j), dst) is Err,
    ensures
        collect_all(ops, dst) == collect_all(ops.take(j), dst),
    decreases ops.len() - j,
{
    if j < ops.len() {
        assert(ops.take(j + 1).drop_last() =~= ops.take(j));
        lemma_collect_all_prefix_err(ops, j + 1, dst);
    } else {
        assert(ops.take(j) =~= ops);
    }
}

/// Evaluates an expression with the destination only: no source attribute, no variable.
fn eval_expr_with_dest(expr: &Expression, dest: &DestinationEntity) -> (r: Result<
    AttributeValue,
    AbacError,
>)
    requires
        !expr_refs_src_or_env(*expr),
    ensures
        crate::rule::value_of(r) == dst_value(*expr, *dest),
{
    let source = SourceEntity::new(String::new(), None);
    let env = Environment::new();
    proof {
        lemma_eval_expr_indep(*expr, source, arbitrary(), *dest, env, arbitrary());
    }
    expr.evaluate(&source, dest, &env)
}

/// The attribute name of a bare `Src.` attribute reference.
fn get_src_attr_name(expr: &Expression) -> (r: Option<String>)
    ensures
        match r {
            Some(n) => bare_src(*expr) == Some(n@),
            None => bare_src(*expr) is None,
        },
{
    match expr {
        Expression::AttributeRef(name) => if starts_with(name.as_str(), "Src.") {
            Some(name.clone())
        } else {
            None
        },
        _ => None,
    }
}

fn no_requirements() -> (v: Vec<SrcRequirement>)
    ensures
        reqs_view(v@) == Seq::<ReqVal>::empty(),
{
    let v: Vec<SrcRequirement> = Vec::new();
    proof {
        assert(reqs_view(v@) =~= Seq::<ReqVal>::empty());
    }
    v
}

fn single(r: SrcRequirement) -> (v: Vec<SrcRequirement>)
    ensures
        reqs_view(v@) == seq![r@],
{
    let mut v: Vec<SrcRequirement> = Vec::new();
    v.push(r);
    proof {
        assert(reqs_view(v@) =~= seq![r@]);
    }
    v
}

fn numeric_requirement(c: &Condition, attr: String, t: i64, attr_left: bool) -> (r: Result<
    Vec<SrcRequirement>,
    AbacError,
>)
    requires
        c is Gte || c is Gt || c is Lt,
    ensures
        reqs_of(r) == numeric_req(*c, attr@, t, attr_left),
{
    match c {
        Condition::Gte { .. } => {
            let mut ge: Vec<i64> = Vec::new();
            ge.push(t);
            let r = SrcRequirement::Numeric { attr, required_ge: ge, required_lt: Vec::new() };
            proof {
                assert(r@ == ReqVal::Numeric(attr@, seq![t], Seq::empty()));
            }
            Ok(single(r))
        },
        Condition::Gt { .. } => {
            if t == i64::MAX {
                return Err(AbacError::RangeError(String::from_str("bound out of range")));
            }
            let mut bound: Vec<i64> = Vec::new();
            bound.push(t + 1);
            let r = if attr_left {
                SrcRequirement::Numeric { attr, required_ge: bound, required_lt: Vec::new() }
            } else {
                SrcRequirement::Numeric { attr, required_ge: Vec::new(), required_lt: bound }
            };
            proof {
                assert(bound@ =~= seq![(t + 1) as i64]);
            }
            Ok(single(r))
        },
        _ => {
            let mut lt: Vec<i64> = Vec::new();
            lt.push(t);
            let r = SrcRequirement::Numeric { attr, required_ge: Vec::new(), required_lt: lt };
            proof {
                assert(r@ == ReqVal::Numeric(attr@, Seq::empty(), seq![t]));
            }
            Ok(single(r))
        },
    }
}

fn numeric_side_exec(
    c: &Condition,
    a: &Expression,
    b: &Expression,
    attr_left: bool,
    dest: &DestinationEntity,
) -> (r: Option<Result<Vec<SrcRequirement>, AbacError>>)
    requires
        c is Gte || c is Gt || c is Lt,
    ensures
        match r {
            None => numeric_side(*c, *a, *b, attr_left, *dest) is None,
            Some(x) => numeric_side(*c, *a, *b, attr_left, *dest) == Some(reqs_of(x)),
        },
{
    if let Some(attr) = get_src_attr_name(a) {
        if !b.references_src_or_env() {
            match eval_expr_with_dest(b, dest) {
                Err(e) => {
                    return Some(Err(e));
                },
                Ok(AttributeValue::Number(t)) => {
                    return Some(numeric_requirement(c, attr, t, attr_left));
                },
                Ok(_) => {},
            }
        }
    }
    None
}

/// Extracts, with the destination fixed, the atomic requirements a source must meet for
/// `condition` to hold. Operands of `And` and `Or` are pooled alike; comparisons that do
/// not pair a bare `Src.` attribute with a source-independent side contribute nothing.
pub fn collect_src_requirements(condition: &Condition, dest: &DestinationEntity) -> (r: Result<
    Vec<SrcRequirement>,
    AbacError,
>)
    ensures
        reqs_of(r) == collect(*condition, *dest),
    decreases condition,
{
    match condition {
        Condition::And { operands } => collect_all_exec(operands, dest),
        Condition::Or { operands } => collect_all_exec(operands, dest),
        Condition::Eq { lhs, rhs } => {
            if let Some(attr) = get_src_attr_name(lhs) {
                if rhs.references_src_or_env() {
                    return Ok(no_requirements());
                }
                let value = eval_expr_with_dest(rhs, dest)?;
                Ok(single(SrcRequirement::Exact { attr, value }))
            } else if let Some(attr) = get_src_attr_name(rhs) {
                if lhs.references_src_or_env() {
                    return Ok(no_requirements());
                }
                let value = eval_expr_with_dest(lhs, dest)?;
                Ok(single(SrcRequirement::Exact { attr, value }))
            } else {
                Ok(no_requirements())
            }
        },
        Condition::Gte { lhs, rhs } | Condition::Gt { lhs, rhs } | Condition::Lt { lhs, rhs } => {
            match numeric_side_exec(condition, lhs, rhs, true, dest) {
                Some(r) => r,
                None => match numeric_side_exec(condition, rhs, lhs, false, dest) {
                    Some(r) => r,
                    None => Ok(no_requirements()),
                },
            }
        },
        Condition::In { target, check_against } => collect_membership_exec(
            target,
            check_against,
            dest,
        ),
        Condition::InSet { value, set } => collect_membership_exec(value, set, dest),
    }
}

fn collect_membership_exec(elem: &Expression, set: &Expression, dest: &DestinationEntity) -> (r: Result<
    Vec<SrcRequirement>,
    AbacError,
>)
    ensures
        reqs_of(r) == collect_membership(*elem, *set, *dest),
{
    if let Some(attr) = get_src_attr_name(elem) {
        if set.references_src_or_env() {
            return Ok(no_requirements());
        }
        let set_val = eval_expr_with_dest(set, dest)?;
        if let AttributeValue::StringSet(allowed) = set_val {
            return Ok(single(SrcRequirement::Containment { attr, allowed_set: allowed }));
        }
    } else if let Some(attr) = get_src_attr_name(set) {
        if elem.references_src_or_env() {
            return Ok(no_requirements());
        }
        let v = eval_expr_with_dest(elem, dest)?;
        if let AttributeValue::String(s) = v {
            let mut allowed: Vec<String> = Vec::new();
            allowed.push(s);
            proof {
                assert(allowed.deep_view() =~= seq![s@]);
            }
            return Ok(single(SrcRequirement::Containment { attr, allowed_set: allowed }));
        }
    }
    Ok(no_requirements())
}

fn collect_all_exec(operands: &Vec<Condition>, dest: &DestinationEntity) -> (r: Result<
    Vec<SrcRequirement>,
    AbacError,
>)
    ensures
        reqs_of(r) == collect_all(operands@, *dest),
    decreases operands,
{
    let mut out: Vec<SrcRequirement> = Vec::new();
    let mut i: usize = 0;
    proof {
        assert(operands@.take(0) =~= Seq::<Condition>::empty());
        assert(reqs_view(out@) =~= Seq::<ReqVal>::empty());
    }
    while i < operands.len()
        invariant
            i <= operands.len(),
            collect_all(operands@.take(i as int), *dest) == Ok::<Seq<ReqVal>, ErrorKind>(
                reqs_view(out@),
            ),
        decreases operands.len() - i,
    {
        proof {
            assert(operands@.take(i + 1).drop_last() =~= operands@.take(i as int));
            assert(operands@.take(i + 1).last() == operands@[i as int]);
        }
        match collect_src_requirements(&operands[i], dest) {
            Ok(mut reqs) => {
                let ghost before = out@;
                let ghost added = reqs@;
                out.append(&mut reqs);
                proof {
                    assert(reqs_view(out@) =~= reqs_view(before) + reqs_view(added));
                }
            },
            Err(e) => {
                proof {
                    lemma_collect_all_prefix_err(operands@, i + 1, *dest);
                }
                return Err(e);
            },
        }
        i = i + 1;
    }
    proof {
        assert(operands@.take(operands.len() as int) =~= operands@);
    }
    Ok(out)
}

/// The mathematical value of [`MergedRequirements`].
pub struct MergedVal {
    pub role: Seq<Seq<char>>,
    pub dept: Seq<Seq<char>>,
    pub groups: Seq<Seq<char>>,
    pub ge: Seq<i64>,
    pub lt: Seq<i64>,
}

/// Requirements merged across rules: for each categorical attribute the values any of
/// which satisfies it (insertion order, no duplicates); for the trust score at most one
/// lower bound and one upper bound, the tightest seen.
#[derive(Debug, Clone)]
pub struct MergedRequirements {
    pub role_allowed: Vec<String>,
    pub dept_allowed: Vec<String>,
    pub trust_score_required_ge: Vec<i64>,
    pub trust_score_required_lt: Vec<i64>,
    pub groups_allowed: Vec<String>,
}

impl View for MergedRequirements {
    type V = MergedVal;

    open spec fn view(&self) -> MergedVal {
        MergedVal {
            role: self.role_allowed.deep_view(),
            dept: self.dept_allowed.deep_view(),
            groups: self.groups_allowed.deep_view(),
            ge: self.trust_score_required_ge@,
            lt: self.trust_score_required_lt@,
        }
    }
}

/// `xs` with `x` appended unless already present.
pub open spec fn add_unique(xs: Seq<Seq<char>>, x: Seq<char>) -> Seq<Seq<char>> {
    if xs.contains(x) {
        xs
    } else {
        xs.push(x)
    }
}

/// `xs` with each of `ys`, in order, appended unless already present.
pub open spec fn add_all_unique(xs: Seq<Seq<char>>, ys: Seq<Seq<char>>) -> Seq<Seq<char>>
    decreases ys.len(),
{
    if ys.len() == 0 {
        xs
    } else {
        add_unique(add_all_unique(xs, ys.drop_last()), ys.last())
    }
}

/// Folds one requirement into the accumulated merge, before bounds are reduced.
pub open spec fn merge_step(m: MergedVal, r: ReqVal) -> MergedVal {
    match r {
        ReqVal::Exact(attr, v) => match v {
            AttrVal::Str(s) => if attr == "Src.Role"@ {
                MergedVal { role: add_unique(m.role, s), ..m }
            } else if attr == "Src.Dept"@ {
                MergedVal { dept: add_unique(m.dept, s), ..m }
            } else {
                m
            },
            _ => m,
        },
        ReqVal::Containment(attr, set) => if attr == "Src.Groups"@ {
            MergedVal { groups: add_all_unique(m.groups, set), ..m }
        } else {
            m
        },
        ReqVal::Numeric(attr, ge, lt) => if attr == "Src.TrustScore"@ {
            MergedVal { ge: m.ge + ge, lt: m.lt + lt, ..m }
        } else {
            m
        },
    }
}

/// The empty merge.
pub open spec fn merge_empty() -> MergedVal {
    MergedVal {
        role: Seq::empty(),
        dept: Seq::empty(),
        groups: Seq::empty(),
        ge: Seq::empty(),
        lt: Seq::empty(),
    }
}

/// Folds every requirement, in order, into the empty merge.
pub open spec fn merge_fold(reqs: Seq<ReqVal>) -> MergedVal
    decreases reqs.len(),
{
    if reqs.len() == 0 {
        merge_empty()
    } else {
        merge_step(merge_fold(reqs.drop_last()), reqs.last())
    }
}

/// The largest element of a non-empty sequence.
pub open spec fn seq_max(s: Seq<i64>) -> i64
    decreases s.len(),
{
    if s.len() <= 1 {
        s[0]
    } else {
        let m = seq_max(s.drop_last());
        if s.last() > m {
            s.last()
        } else {
            m
        }
    }
}

/// The smallest element of a non-empty sequence.
pub open spec fn seq_min(s: Seq<i64>) -> i64
    decreases s.len(),
{
    if s.len() <= 1 {
        s[0]
    } else {
        let m = seq_min(s.drop_last());
        if s.last() < m {
            s.last()
        } else {
            m
        }
    }
}

/// The merge of `reqs`: the fold, with the lower bounds reduced to their maximum and
/// the upper bounds to their minimum.
pub open spec fn merged(reqs: Seq<ReqVal>) -> MergedVal {
    let m = merge_fold(reqs);
    MergedVal {
        ge: if m.ge.len() == 0 {
            Seq::empty()
        } else {
            seq![seq_max(m.ge)]
        },
        lt: if m.lt.len() == 0 {
            Seq::empty()
        } else {
            seq![seq_min(m.lt)]
        },
        ..m
    }
}

proof fn lemma_seq_max(s: Seq<i64>)
    requires
        s.len() > 0,
    ensures
        forall|i: int| 0 <= i < s.len() ==> s[i] <= seq_max(s),
        s.contains(seq_max(s)),
    decreases s.len(),
{
    if s.len() > 1 {
        lemma_seq_max(s.drop_last());
        assert(forall|i: int| 0 <= i < s.len() - 1 ==> s[i] == s.drop_last()[i]);
        let m = seq_max(s.drop_last());
        let k = choose|k: int| 0 <= k < s.len() - 1 && s.drop_last()[k] == m;
        if s.last() <= m {
            assert(s[k] == m);
        } else {
            assert(s[s.len() - 1] == s.last());
        }
    } else {
        assert(s[0] == seq_max(s));
    }
}

proof fn lemma_seq_min(s: Seq<i64>)
    requires
        s.len() > 0,
    ensures
        forall|i: int| 0 <= i < s.len() ==> seq_min(s) <= s[i],
        s.contains(seq_min(s)),
    decreases s.len(),
{
    if s.len() > 1 {
        lemma_seq_min(s.drop_last());
        assert(forall|i: int| 0 <= i < s.len() - 1 ==> s[i] == s.drop_last()[i]);
        let m = seq_min(s.drop_last());
        let k = choose|k: int| 0 <= k < s.len() - 1 && s.drop_last()[k] == m;
        if s.last() >= m {
            assert(s[k] == m);
        } else {
            assert(s[s.len() - 1] == s.last());
        }
    } else {
        assert(s[0] == seq_min(s));
    }
}

fn push_unique(v: &mut Vec<String>, s: String)
    ensures
        final(v).deep_view() == add_unique(old(v).deep_view(), s@),
{
    if !contains_str(v, &s) {
        let ghost before = v.deep_view();
        v.push(s);
        proof {
            assert(v.deep_view() =~= before.push(s@));
        }
    }
}

fn push_all_unique(v: &mut Vec<String>, set: &Vec<String>)
    ensures
        final(v).deep_view() == add_all_unique(old(v).deep_view(), set.deep_view()),
{
    let ghost start = v.deep_view();
    let mut j: usize = 0;
    proof {
        assert(set.deep_view().take(0) =~= Seq::<Seq<char>>::empty());
    }
    while j < set.len()
        invariant
            j <= set.len(),
            v.deep_view() == add_all_unique(start, set.deep_view().take(j as int)),
        decreases set.len() - j,
    {
        proof {
            assert(set.deep_view().take(j + 1).drop_last() =~= set.deep_view().take(j as int));
            assert(set.deep_view().take(j + 1).last() == set[j as int]@);
        }
        push_unique(v, set[j].clone());
        j = j + 1;
    }
    proof {
        assert(set.deep_view().take(set.len() as int) =~= set.deep_view());
    }
}

fn push_all(v: &mut Vec<i64>, xs: &Vec<i64>)
    ensures
        final(v)@ == old(v)@ + xs@,
{
    let ghost start = v@;
    let mut j: usize = 0;
    while j < xs.len()
        invariant
            j <= xs.len(),
            v@ =~= start + xs@.take(j as int),
        decreases xs.len() - j,
    {
        v.push(xs[j]);
        j = j + 1;
        proof {
            assert(v@ =~= start + xs@.take(j as int));
        }
    }
    proof {
        assert(xs@.take(xs.len() as int) =~= xs@);
    }
}

fn max_of(v: &Vec<i64>) -> (r: i64)
    requires
        v.len() > 0,
    ensures
        r == seq_max(v@),
{
    let mut m = v[0];
    let mut i: usize = 1;
    proof {
        assert(v@.take(1).len() == 1);
    }
    while i < v.len()
        invariant
            1 <= i <= v.len(),
            m == seq_max(v@.take(i as int)),
        decreases v.len() - i,
    {
        proof {
            assert(v@.take(i + 1).drop_last() =~= v@.take(i as int));
            assert(v@.take(i + 1).last() == v@[i as int]);
        }
        if v[i] > m {
            m = v[i];
        }
        i = i + 1;
    }
    proof {
        assert(v@.take(v.len() as int) =~= v@);
    }
    m
}

fn min_of(v: &Vec<i64>) -> (r: i64)
    requires
        v.len() > 0,
    ensures
        r == seq_min(v@),
{
    let mut m = v[0];
    let mut i: usize = 1;
    proof {
        assert(v@.take(1).len() == 1);
    }
    while i < v.len()
        invariant
            1 <= i <= v.len(),
            m == seq_min(v@.take(i as int)),
        decreases v.len() - i,
    {
        proof {
            assert(v@.take(i + 1).drop_last() =~= v@.take(i as int));
            assert(v@.take(i + 1).last() == v@[i as int]);
        }
        if v[i] < m {
            m = v[i];
        }
        i = i + 1;
    }
    proof {
        assert(v@.take(v.len() as int) =~= v@);
    }
    m
}

impl MergedRequirements {
    /// No constraint on any attribute.
    pub fn new() -> (r: MergedRequirements)
        ensures
            r@ == merge_empty(),
    {
        let r = MergedRequirements {
            role_allowed: Vec::new(),
            dept_allowed: Vec::new(),
            trust_score_required_ge: Vec::new(),
            trust_score_required_lt: Vec::new(),
            groups_allowed: Vec::new(),
        };
        proof {
            assert(r@.role =~= Seq::<Seq<char>>::empty());
            assert(r@.dept =~= Seq::<Seq<char>>::empty());
            assert(r@.groups =~= Seq::<Seq<char>>::empty());
        }
        r
    }

    fn add(&mut self, req: &SrcRequirement)
        ensures
            final(self)@ == merge_step(old(self)@, req@),
    {
        match req {
            SrcRequirement::Exact { attr, value } => {
                if let AttributeValue::String(s) = value {
                    if str_eq(attr.as_str(), "Src.Role") {
                        push_unique(&mut self.role_allowed, s.clone());
                    } else if str_eq(attr.as_str(), "Src.Dept") {
                        push_unique(&mut self.dept_allowed, s.clone());
                    }
                }
            },
            SrcRequirement::Containment { attr, allowed_set } => {
                if str_eq(attr.as_str(), "Src.Groups") {
                    push_all_unique(&mut self.groups_allowed, allowed_set);
                }
            },
            SrcRequirement::Numeric { attr, required_ge, required_lt } => {
                if str_eq(attr.as_str(), "Src.TrustScore") {
                    push_all(&mut self.trust_score_required_ge, required_ge);
                    push_all(&mut self.trust_score_required_lt, required_lt);
                }
            },
        }
    }
}

/// Merges requirements gathered across rules: string values of `Src.Role` / `Src.Dept`
/// equalities and the members of `Src.Groups` containments are collected without
/// duplicates; `Src.TrustScore` lower bounds reduce to their maximum and upper bounds
/// to their minimum. Everything else is left unconstrained.
pub fn merge_requirements(requirements: Vec<SrcRequirement>) -> (r: Result<
    MergedRequirements,
    AbacError,
>)
    ensures
        r matches Ok(m) && m@ == merged(reqs_view(requirements@)),
{
    let mut out = MergedRequirements::new();
    let mut i: usize = 0;
    proof {
        assert(reqs_view(requirements@).take(0) =~= Seq::<ReqVal>::empty());
    }
    while i < requirements.len()
        invariant
            i <= requirements.len(),
            out@ == merge_fold(reqs_view(requirements@).take(i as int)),
        decreases requirements.len() - i,
    {
        proof {
            assert(reqs_view(requirements@).take(i + 1).drop_last() =~= reqs_view(
                requirements@,
            ).take(i as int));
            assert(reqs_view(requirements@).take(i + 1).last() == requirements@[i as int]@);
        }
        out.add(&requirements[i]);
        i = i + 1;
    }
    proof {
        assert(reqs_view(requirements@).take(requirements.len() as int) =~= reqs_view(
            requirements@,
        ));
    }
    if out.trust_score_required_ge.len() > 0 {
        let max_ge = max_of(&out.trust_score_required_ge);
        let mut ge: Vec<i64> = Vec::new();
        ge.push(max_ge);
        out.trust_score_required_ge = ge;
    }
    if out.trust_score_required_lt.len() > 0 {
        let min_lt = min_of(&out.trust_score_required_lt);
        let mut lt: Vec<i64> = Vec::new();
        lt.push(min_lt);
        out.trust_score_required_lt = lt;
    }
    proof {
        assert(out@.ge =~= merged(reqs_view(requirements@)).ge);
        assert(out@.lt =~= merged(reqs_view(requirements@)).lt);
    }
    Ok(out)
}

/// `r` is a `Src.TrustScore` requirement with lower bound `x` among its lower bounds.
pub open spec fn trust_lower_bound(r: ReqVal, x: i64) -> bool {
    r matches ReqVal::Numeric(attr, ge, _) && attr == "Src.TrustScore"@ && ge.contains(x)
}

/// `r` is a `Src.TrustScore` requirement with upper bound `x` among its upper bounds.
pub open spec fn trust_upper_bound(r: ReqVal, x: i64) -> bool {
    r matches ReqVal::Numeric(attr, _, lt) && attr == "Src.TrustScore"@ && lt.contains(x)
}

proof fn lemma_fold_bounds(reqs: Seq<ReqVal>)
    ensures
        forall|x: i64|
            merge_fold(reqs).ge.contains(x) <==> exists|i: int|
                0 <= i < reqs.len() && #[trigger] trust_lower_bound(reqs[i], x),
        forall|x: i64|
            merge_fold(reqs).lt.contains(x) <==> exists|i: int|
                0 <= i < reqs.len() && #[trigger] trust_upper_bound(reqs[i], x),
    decreases reqs.len(),
{
    if reqs.len() > 0 {
        let p = reqs.drop_last();
        lemma_fold_bounds(p);
        let m = merge_fold(p);
        let n = reqs.len() - 1;
        assert forall|x: i64|
            merge_fold(reqs).ge.contains(x) <==> exists|i: int|
                0 <= i < reqs.len() && #[trigger] trust_lower_bound(reqs[i], x) by {
            if merge_fold(reqs).ge.contains(x) {
                let k = choose|k: int| 0 <= k < merge_fold(reqs).ge.len() && merge_fold(reqs).ge[k] == x;
                if k < m.ge.len() {
                    assert(m.ge[k] == x);
                    assert(m.ge.contains(x));
                    let i = choose|i: int| 0 <= i < p.len() && #[trigger] trust_lower_bound(p[i], x);
                    assert(reqs[i] == p[i]);
                } else {
                    let g = reqs[n]->Numeric_1;
                    assert(g[k - m.ge.len()] == x);
                    assert(trust_lower_bound(reqs[n], x));
                }
            }
            if exists|i: int| 0 <= i < reqs.len() && #[trigger] trust_lower_bound(reqs[i], x) {
                let i = choose|i: int| 0 <= i < reqs.len() && #[trigger] trust_lower_bound(reqs[i], x);
                if i < n {
                    assert(p[i] == reqs[i]);
                    assert(m.ge.contains(x));
                    let k = choose|k: int| 0 <= k < m.ge.len() && m.ge[k] == x;
                    assert(merge_fold(reqs).ge[k] == x);
                } else {
                    let g = reqs[n]->Numeric_1;
                    let k = choose|k: int| 0 <= k < g.len() && g[k] == x;
                    assert(merge_fold(reqs).ge[m.ge.len() + k] == x);
                }
            }
        }
        assert forall|x: i64|
            merge_fold(reqs).lt.contains(x) <==> exists|i: int|
                0 <= i < reqs.len() && #[trigger] trust_upper_bound(reqs[i], x) by {
            if merge_fold(reqs).lt.contains(x) {
                let k = choose|k: int| 0 <= k < merge_fold(reqs).lt.len() && merge_fold(reqs).lt[k] == x;
                if k < m.lt.len() {
                    assert(m.lt[k] == x);
                    assert(m.lt.contains(x));
                    let i = choose|i: int| 0 <= i < p.len() && #[trigger] trust_upper_bound(p[i], x);
                    assert(reqs[i] == p[i]);
                } else {
                    let g = reqs[n]->Numeric_2;
                    assert(g[k - m.lt.len()] == x);
                    assert(trust_upper_bound(reqs[n], x));
                }
            }
            if exists|i: int| 0 <= i < reqs.len() && #[trigger] trust_upper_bound(reqs[i], x) {
                let i = choose|i: int| 0 <= i < reqs.len() && #[trigger] trust_upper_bound(reqs[i], x);
                if i < n {
                    assert(p[i] == reqs[i]);
                    assert(m.lt.contains(x));
                    let k = choose|k: int| 0 <= k < m.lt.len() && m.lt[k] == x;
                    assert(merge_fold(reqs).lt[k] == x);
                } else {
                    let g = reqs[n]->Numeric_2;
                    let k = choose|k: int| 0 <= k < g.len() && g[k] == x;
                    assert(merge_fold(reqs).lt[m.lt.len() + k] == x);
                }
            }
        }
    }
}

/// Merging keeps the most restrictive trust-score bounds: the single lower bound kept is
/// one of the lower bounds given and at least every one of them; the single upper bound
/// kept is one of the upper bounds given and at most every one of them. With no bound
/// of a kind, none is kept.
pub proof fn lemma_merge_keeps_tightest_bounds(reqs: Seq<ReqVal>)
    ensures
        merged(reqs).ge.len() <= 1,
        merged(reqs).lt.len() <= 1,
        forall|i: int, x: i64|
            0 <= i < reqs.len() && #[trigger] trust_lower_bound(reqs[i], x) ==> merged(reqs).ge.len()
                == 1 && x <= merged(reqs).ge[0],
        forall|i: int, x: i64|
            0 <= i < reqs.len() && #[trigger] trust_upper_bound(reqs[i], x) ==> merged(reqs).lt.len()
                == 1 && merged(reqs).lt[0] <= x,
        merged(reqs).ge.len() == 1 ==> exists|i: int|
            0 <= i < reqs.len() && #[trigger] trust_lower_bound(reqs[i], merged(reqs).ge[0]),
        merged(reqs).lt.len() == 1 ==> exists|i: int|
            0 <= i < reqs.len() && #[trigger] trust_upper_bound(reqs[i], merged(reqs).lt[0]),
{
    lemma_fold_bounds(reqs);
    let m = merge_fold(reqs);
    if m.ge.len() > 0 {
        lemma_seq_max(m.ge);
    }
    if m.lt.len() > 0 {
        lemma_seq_min(m.lt);
    }
    assert forall|i: int, x: i64|
        0 <= i < reqs.len() && #[trigger] trust_lower_bound(reqs[i], x) implies merged(reqs).ge.len()
            == 1 && x <= merged(reqs).ge[0] by {
        assert(m.ge.contains(x));
    }
    assert forall|i: int, x: i64|
        0 <= i < reqs.len() && #[trigger] trust_upper_bound(reqs[i], x) implies merged(reqs).lt.len()
            == 1 && merged(reqs).lt[0] <= x by {
        assert(m.lt.contains(x));
    }
}

/// Folds every requirement, in order, into the merge `m`.
pub open spec fn merge_from(m: MergedVal, reqs: Seq<ReqVal>) -> MergedVal
    decreases reqs.len(),
{
    if reqs.len() == 0 {
        m
    } else {
        merge_step(merge_from(m, reqs.drop_last()), reqs.last())
    }
}

proof fn lemma_fold_is_from_empty(reqs: Seq<ReqVal>)
    ensures
        merge_fold(reqs) == merge_from(merge_empty(), reqs),
    decreases reqs.len(),
{
    if reqs.len() > 0 {
        lemma_fold_is_from_empty(reqs.drop_last());
    }
}

proof fn lemma_from_append(m: MergedVal, a: Seq<ReqVal>, b: Seq<ReqVal>)
    ensures
        merge_from(m, a + b) == merge_from(merge_from(m, a), b),
    decreases b.len(),
{
    if b.len() == 0 {
        assert(a + b =~= a);
    } else {
        assert((a + b).drop_last() =~= a + b.drop_last());
        assert((a + b).last() == b.last());
        lemma_from_append(m, a, b.drop_last());
    }
}

/// The merge `m` already holds everything requirement `r` would add to its value lists.
pub open spec fn covers(m: MergedVal, r: ReqVal) -> bool {
    match r {
        ReqVal::Exact(attr, v) => match v {
            AttrVal::Str(s) => (attr == "Src.Role"@ ==> m.role.contains(s)) && (attr
                == "Src.Dept"@ ==> m.dept.contains(s)),
            _ => true,
        },
        ReqVal::Containment(attr, set) => attr == "Src.Groups"@ ==> forall|i: int|
            0 <= i < set.len() ==> m.groups.contains(#[trigger] set[i]),
        _ => true,
    }
}

/// Every value list of `m` is kept in `n`.
pub open spec fn lists_kept(m: MergedVal, n: MergedVal) -> bool {
    (forall|x: Seq<char>| m.role.contains(x) ==> n.role.contains(x)) && (forall|x: Seq<char>|
        m.dept.contains(x) ==> n.dept.contains(x)) && (forall|x: Seq<char>|
        m.groups.contains(x) ==> n.groups.contains(x))
}

proof fn lemma_add_unique_keeps(xs: Seq<Seq<char>>, x: Seq<char>)
    ensures
        add_unique(xs, x).contains(x),
        forall|y: Seq<char>| xs.contains(y) ==> add_unique(xs, x).contains(y),
{
    if !xs.contains(x) {
        assert(xs.push(x)[xs.len() as int] == x);
        assert forall|y: Seq<char>| xs.contains(y) implies xs.push(x).contains(y) by {
            let k = choose|k: int| 0 <= k < xs.len() && xs[k] == y;
            assert(xs.push(x)[k] == y);
        }
    }
}

proof fn lemma_add_all_unique_keeps(xs: Seq<Seq<char>>, ys: Seq<Seq<char>>)
    ensures
        forall|i: int| 0 <= i < ys.len() ==> add_all_unique(xs, ys).contains(#[trigger] ys[i]),
        forall|y: Seq<char>| xs.contains(y) ==> add_all_unique(xs, ys).contains(y),
    decreases ys.len(),
{
    if ys.len() > 0 {
        let p = ys.drop_last();
        lemma_add_all_unique_keeps(xs, p);
        lemma_add_unique_keeps(add_all_unique(xs, p), ys.last());
        assert forall|i: int| 0 <= i < ys.len() implies add_all_unique(xs, ys).contains(
            #[trigger] ys[i],
        ) by {
            if i < ys.len() - 1 {
                assert(ys[i] == p[i]);
            }
        }
    }
}

proof fn lemma_add_all_unique_covered(xs: Seq<Seq<char>>, ys: Seq<Seq<char>>)
    requires
        forall|i: int| 0 <= i < ys.len() ==> xs.contains(#[trigger] ys[i]),
    ensures
        add_all_unique(xs, ys) == xs,
    decreases ys.len(),
{
    if ys.len() > 0 {
        let p = ys.drop_last();
        assert forall|i: int| 0 <= i < p.len() implies xs.contains(#[trigger] p[i]) by {
            assert(p[i] == ys[i]);
        }
        lemma_add_all_unique_covered(xs, p);
        assert(xs.contains(ys[ys.len() - 1]));
    }
}

proof fn lemma_step_covers(m: MergedVal, r: ReqVal)
    ensures
        covers(merge_step(m, r), r),
        lists_kept(m, merge_step(m, r)),
{
    match r {
        ReqVal::Exact(attr, v) => {
            if let AttrVal::Str(s) = v {
                lemma_add_unique_keeps(m.role, s);
                lemma_add_unique_keeps(m.dept, s);
                reveal_strlit("Src.Role");
                reveal_strlit("Src.Dept");
                assert("Src.Role"@[4] != "Src.Dept"@[4]);
            }
        },
        ReqVal::Containment(attr, set) => {
            lemma_add_all_unique_keeps(m.groups, set);
        },
        _ => {},
    }
}

proof fn lemma_kept_covers(m: MergedVal, n: MergedVal, r: ReqVal)
    requires
        covers(m, r),
        lists_kept(m, n),
    ensures
        covers(n, r),
{
}

proof fn lemma_from_covers(m: MergedVal, q: Seq<ReqVal>)
    ensures
        forall|i: int| 0 <= i < q.len() ==> covers(merge_from(m, q), #[trigger] q[i]),
        lists_kept(m, merge_from(m, q)),
    decreases q.len(),
{
    if q.len() > 0 {
        let p = q.drop_last();
        lemma_from_covers(m, p);
        let mp = merge_from(m, p);
        lemma_step_covers(mp, q.last());
        assert forall|i: int| 0 <= i < q.len() implies covers(merge_from(m, q), #[trigger] q[i]) by {
            if i < q.len() - 1 {
                assert(q[i] == p[i]);
                lemma_kept_covers(mp, merge_from(m, q), p[i]);
            }
        }
    }
}

proof fn lemma_covered_from(m: MergedVal, q: Seq<ReqVal>)
    requires
        forall|i: int| 0 <= i < q.len() ==> covers(m, #[trigger] q[i]),
    ensures
        merge_from(m, q).role == m.role,
        merge_from(m, q).dept == m.dept,
        merge_from(m, q).groups == m.groups,
    decreases q.len(),
{
    if q.len() > 0 {
        let p = q.drop_last();
        assert forall|i: int| 0 <= i < p.len() implies covers(m, #[trigger] p[i]) by {
            assert(p[i] == q[i]);
        }
        lemma_covered_from(m, p);
        assert(covers(m, q[q.len() - 1]));
        if let ReqVal::Containment(attr, set) = q.last() {
            if attr == "Src.Groups"@ {
                lemma_add_all_unique_covered(m.groups, set);
            }
        }
    }
}

proof fn lemma_from_bounds(m: MergedVal, q: Seq<ReqVal>)
    ensures
        merge_from(m, q).ge == m.ge + merge_fold(q).ge,
        merge_from(m, q).lt == m.lt + merge_fold(q).lt,
    decreases q.len(),
{
    if q.len() == 0 {
        assert(m.ge + Seq::<i64>::empty() =~= m.ge);
        assert(m.lt + Seq::<i64>::empty() =~= m.lt);
    } else {
        lemma_from_bounds(m, q.drop_last());
        if let ReqVal::Numeric(attr, ge, lt) = q.last() {
            if attr == "Src.TrustScore"@ {
                assert(m.ge + merge_fold(q.drop_last()).ge + ge =~= m.ge + (merge_fold(q.drop_last()).ge + ge));
                assert(m.lt + merge_fold(q.drop_last()).lt + lt =~= m.lt + (merge_fold(q.drop_last()).lt + lt));
            }
        }
    }
}

proof fn lemma_max_doubled(s: Seq<i64>)
    requires
        s.len() > 0,
    ensures
        seq_max(s + s) == seq_max(s),
        seq_min(s + s) == seq_min(s),
{
    let d = s + s;
    lemma_seq_max(s);
    lemma_seq_max(d);
    lemma_seq_min(s);
    lemma_seq_min(d);
    let a = choose|k: int| 0 <= k < d.len() && d[k] == seq_max(d);
    let b = choose|k: int| 0 <= k < s.len() && s[k] == seq_max(s);
    assert(d[b] == s[b]);
    if a >= s.len() {
        assert(d[a] == s[a - s.len()]);
    } else {
        assert(d[a] == s[a]);
    }
    let c = choose|k: int| 0 <= k < d.len() && d[k] == seq_min(d);
    let e = choose|k: int| 0 <= k < s.len() && s[k] == seq_min(s);
    assert(d[e] == s[e]);
    if c >= s.len() {
        assert(d[c] == s[c - s.len()]);
    } else {
        assert(d[c] == s[c]);
    }
}

/// Merging is idempotent: merging a list of requirements followed by the same list again
/// gives the same result as merging it once.
pub proof fn lemma_merge_idempotent(reqs: Seq<ReqVal>)
    ensures
        merged(reqs + reqs) == merged(reqs),
{
    let m1 = merge_fold(reqs);
    lemma_fold_is_from_empty(reqs);
    lemma_fold_is_from_empty(reqs + reqs);
    lemma_from_append(merge_empty(), reqs, reqs);
    lemma_from_covers(merge_empty(), reqs);
    lemma_covered_from(m1, reqs);
    lemma_from_bounds(m1, reqs);
    let m2 = merge_fold(reqs + reqs);
    assert(m2 == merge_from(m1, reqs));
    if m1.ge.len() > 0 {
        lemma_max_doubled(m1.ge);
    }
    if m1.lt.len() > 0 {
        lemma_max_doubled(m1.lt);
    }
    assert(merged(reqs + reqs).ge =~= merged(reqs).ge);
    assert(merged(reqs + reqs).lt =~= merged(reqs).lt);
}

} // verus!
