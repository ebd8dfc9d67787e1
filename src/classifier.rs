//! Top-level compilation across policies and destinations: which rules may apply to
//! each destination, and the requirement key each destination imposes on sources.
use vstd::prelude::*;

use crate::encoder::{
    AttrIdMap, KeySemantics, key_pairs, merged_requirements_to_key_bits_per_attr, names,
    pairs_view, uses_threshold,
};
use crate::entity::DestinationEntity;
use crate::error::{AbacError, ErrorKind};
use crate::requirements::{
    ReqVal, SrcRequirement, collect, collect_src_requirements, merge_requirements, merged,
    reqs_view,
};
use crate::rule::{Policy, Rule, cond_refs_dst, dest_only};

verus! {

broadcast use vstd::std_specs::vec::group_vec_axioms, vstd::seq::group_seq_axioms;

/// A rule may apply to a destination: its condition does not mention the destination,
/// or its destination-only evaluation is true (a failing evaluation drops the rule).
pub open spec fn applicable(r: Rule, dst: DestinationEntity) -> bool {
    !cond_refs_dst(r.condition) || dest_only(r.condition, dst) == Ok::<bool, ErrorKind>(true)
}

/// The ids of the rules of `rules` that may apply to `dst`, in order.
pub open spec fn applicable_ids(rules: Seq<Rule>, dst: DestinationEntity) -> Seq<Seq<char>>
    decreases rules.len(),
{
    if rules.len() == 0 {
        Seq::empty()
    } else {
        applicable_ids(rules.drop_last(), dst) + if applicable(rules.last(), dst) {
            seq![rules.last().id@]
        } else {
            Seq::empty()
        }
    }
}

/// The ids of the rules of every policy that may apply to `dst`, policy by policy.
pub open spec fn policies_applicable_ids(ps: Seq<Policy>, dst: DestinationEntity) -> Seq<
    Seq<char>,
>
    decreases ps.len(),
{
    if ps.len() == 0 {
        Seq::empty()
    } else {
        policies_applicable_ids(ps.drop_last(), dst) + applicable_ids(ps.last().rules@, dst)
    }
}

/// The requirements of the rules of `rules` that may apply to `dst`, concatenated.
pub open spec fn rule_reqs(rules: Seq<Rule>, dst: DestinationEntity) -> Result<
    Seq<ReqVal>,
    ErrorKind,
>
    decreases rules.len(),
{
    if rules.len() == 0 {
        Ok(Seq::empty())
    } else {
        match rule_reqs(rules.drop_last(), dst) {
            Err(k) => Err(k),
            Ok(a) => if applicable(rules.last(), dst) {
                match collect(rules.last().condition, dst) {
                    Err(k) => Err(k),
                    Ok(b) => Ok(a + b),
                }
            } else {
                Ok(a)
            },
        }
    }
}

/// The requirements of every applicable rule of every policy, concatenated.
pub open spec fn dest_reqs(ps: Seq<Policy>, dst: DestinationEntity) -> Result<
    Seq<ReqVal>,
    ErrorKind,
>
    decreases ps.len(),
{
    if ps.len() == 0 {
        Ok(Seq::empty())
    } else {
        match dest_reqs(ps.drop_last(), dst) {
            Err(k) => Err(k),
            Ok(a) => match rule_reqs(ps.last().rules@, dst) {
                Err(k) => Err(k),
                Ok(b) => Ok(a + b),
            },
        }
    }
}

/// The compiled key of one destination and whether it carries a threshold slot.
pub open spec fn dest_key(
    ps: Seq<Policy>,
    dst: DestinationEntity,
    m: AttrIdMap,
    order: Seq<Seq<char>>,
    ts: Seq<i64>,
) -> Result<(Seq<(Seq<char>, Seq<char>)>, bool), ErrorKind> {
    match dest_reqs(ps, dst) {
        Err(k) => Err(k),
        Ok(reqs) => match key_pairs(m, merged(reqs), order, ts) {
            Err(k) => Err(k),
            Ok(p) => Ok((p, uses_threshold(merged(reqs), order))),
        },
    }
}

/// Whether `rule` may apply to `dest_entity`.
fn is_rule_applicable_for_dest_entity(rule: &Rule, dest_entity: &DestinationEntity) -> (r: bool)
    ensures
        r == applicable(*rule, *dest_entity),
{
    if !rule.condition.references_dst() {
        return true;
    }
    match rule.condition.evaluate_dest_only(dest_entity) {
        Ok(b) => b,
        Err(_) => false,
    }
}

fn applicable_rule_ids(rules: &Vec<Rule>, dest: &DestinationEntity, out: &mut Vec<String>)
    ensures
        final(out).deep_view() == old(out).deep_view() + applicable_ids(rules@, *dest),
{
    let ghost start = out.deep_view();
    let mut i: usize = 0;
    proof {
        assert(rules@.take(0) =~= Seq::<Rule>::empty());
        assert(start + applicable_ids(rules@.take(0), *dest) =~= start);
    }
    while i < rules.len()
        invariant
            i <= rules.len(),
            out.deep_view() == start + applicable_ids(rules@.take(i as int), *dest),
        decreases rules.len() - i,
    {
        proof {
            assert(rules@.take(i + 1).drop_last() =~= rules@.take(i as int));
            assert(rules@.take(i + 1).last() == rules@[i as int]);
        }
        let ghost before = out.deep_view();
        if is_rule_applicable_for_dest_entity(&rules[i], dest) {
            out.push(rules[i].id.clone());
            proof {
                assert(out.deep_view() =~= before.push(rules@[i as int].id@));
            }
        }
        proof {
            assert(out.deep_view() =~= start + applicable_ids(rules@.take(i + 1), *dest));
        }
        i = i + 1;
    }
    proof {
        assert(rules@.take(rules.len() as int) =~= rules@);
    }
}

/// For each destination, in order, its address and the ids of the rules of every policy
/// (policy by policy, rule by rule) that may apply to it.
pub fn list_applicable_rules_per_dest_entity(
    policies: &[Policy],
    dest_entities: &[DestinationEntity],
) -> (r: Vec<(String, Vec<String>)>)
    ensures
        r.len() == dest_entities.len(),
        forall|i: int|
            0 <= i < r.len() ==> (#[trigger] r@[i]).0@ == dest_entities@[i].ip@
                && r@[i].1.deep_view() == policies_applicable_ids(policies@, dest_entities@[i]),
{
    let mut result: Vec<(String, Vec<String>)> = Vec::new();
    let mut d: usize = 0;
    while d < dest_entities.len()
        invariant
            d <= dest_entities.len(),
            result.len() == d,
            forall|i: int|
                0 <= i < d ==> (#[trigger] result@[i]).0@ == dest_entities@[i].ip@
                    && result@[i].1.deep_view() == policies_applicable_ids(
                    policies@,
                    dest_entities@[i],
                ),
        decreases dest_entities.len() - d,
    {
        let dest = &dest_entities[d];
        let mut ids: Vec<String> = Vec::new();
        let mut p: usize = 0;
        proof {
            assert(policies@.take(0) =~= Seq::<Policy>::empty());
            assert(ids.deep_view() =~= Seq::<Seq<char>>::empty());
        }
        while p < policies.len()
            invariant
                p <= policies.len(),
                ids.deep_view() == policies_applicable_ids(policies@.take(p as int), *dest),
            decreases policies.len() - p,
        {
            proof {
                assert(policies@.take(p + 1).drop_last() =~= policies@.take(p as int));
                assert(policies@.take(p + 1).last() == policies@[p as int]);
            }
            applicable_rule_ids(&policies[p].rules, dest, &mut ids);
            p = p + 1;
        }
        proof {
            assert(policies@.take(policies.len() as int) =~= policies@);
        }
        result.push((dest.ip.clone(), ids));
        d = d + 1;
    }
    result
}

proof fn lemma_rule_reqs_prefix_err(rules: Seq<Rule>, j: int, dst: DestinationEntity)
    requires
        0 <= j <= rules.len(),
        rule_reqs(rules.take(j), dst) is Err,
    ensures
        rule_reqs(rules, dst) == rule_reqs(rules.take(j), dst),
    decreases rules.len() - j,
{
    if j < rules.len() {
        assert(rules.take(j + 1).drop_last() =~= rules.take(j));
        lemma_rule_reqs_prefix_err(rules, j + 1, dst);
    } else {
        assert(rules.take(j) =~= rules);
    }
}

proof fn lemma_dest_reqs_prefix_err(ps: Seq<Policy>, j: int, dst: DestinationEntity)
    requires
        0 <= j <= ps.len(),
        dest_reqs(ps.take(j), dst) is Err,
    ensures
        dest_reqs(ps, dst) == dest_reqs(ps.take(j), dst),
    decreases ps.len() - j,
{
    if j < ps.len() {
        assert(ps.take(j + 1).drop_last() =~= ps.take(j));
        lemma_dest_reqs_prefix_err(ps, j + 1, dst);
    } else {
        assert(ps.take(j) =~= ps);
    }
}

fn rule_requirements(rules: &Vec<Rule>, dest: &DestinationEntity) -> (r: Result<
    Vec<SrcRequirement>,
    AbacError,
>)
    ensures
        match r {
            Ok(v) => rule_reqs(rules@, *dest) == Ok::<Seq<ReqVal>, ErrorKind>(reqs_view(v@)),
            Err(e) => rule_reqs(rules@, *dest) == Err::<Seq<ReqVal>, ErrorKind>(e.kind()),
        },
{
    let mut out: Vec<SrcRequirement> = Vec::new();
    let mut i: usize = 0;
    proof {
        assert(rules@.take(0) =~= Seq::<Rule>::empty());
        assert(reqs_view(out@) =~= Seq::<ReqVal>::empty());
    }
    while i < rules.len()
        invariant
            i <= rules.len(),
            rule_reqs(rules@.take(i as int), *dest) == Ok::<Seq<ReqVal>, ErrorKind>(
                reqs_view(out@),
            ),
        decreases rules.len() - i,
    {
        proof {
            assert(rules@.take(i + 1).drop_last() =~= rules@.take(i as int));
            assert(rules@.take(i + 1).last() == rules@[i as int]);
        }
        if is_rule_applicable_for_dest_entity(&rules[i], dest) {
            match collect_src_requirements(&rules[i].condition, dest) {
                Ok(mut reqs) => {
                    let ghost before = out@;
                    let ghost added = reqs@;
                    out.append(&mut reqs);
                    proof {
                        assert(reqs_view(out@) =~= reqs_view(before) + reqs_view(added));
                    }
                },
                Err(e) => {
                    proof {
                        lemma_rule_reqs_prefix_err(rules@, i + 1, *dest);
                    }
                    return Err(e);
                },
            }
        }
        i = i + 1;
    }
    proof {
        assert(rules@.take(rules.len() as int) =~= rules@);
    }
    Ok(out)
}

fn dest_requirements(policies: &[Policy], dest: &DestinationEntity) -> (r: Result<
    Vec<SrcRequirement>,
    AbacError,
>)
    ensures
        match r {
            Ok(v) => dest_reqs(policies@, *dest) == Ok::<Seq<ReqVal>, ErrorKind>(reqs_view(v@)),
            Err(e) => dest_reqs(policies@, *dest) == Err::<Seq<ReqVal>, ErrorKind>(e.kind()),
        },
{
    let mut all_reqs: Vec<SrcRequirement> = Vec::new();
    let mut p: usize = 0;
    proof {
        assert(policies@.take(0) =~= Seq::<Policy>::empty());
        assert(reqs_view(all_reqs@) =~= Seq::<ReqVal>::empty());
    }
    while p < policies.len()
        invariant
            p <= policies.len(),
            dest_reqs(policies@.take(p as int), *dest) == Ok::<Seq<ReqVal>, ErrorKind>(
                reqs_view(all_reqs@),
            ),
        decreases policies.len() - p,
    {
        proof {
            assert(policies@.take(p + 1).drop_last() =~= policies@.take(p as int));
            assert(policies@.take(p + 1).last() == policies@[p as int]);
        }
        match rule_requirements(&policies[p].rules, dest) {
            Ok(mut reqs) => {
                let ghost before = all_reqs@;
                let ghost added = reqs@;
                all_reqs.append(&mut reqs);
                proof {
                    assert(reqs_view(all_reqs@) =~= reqs_view(before) + reqs_view(added));
                }
            },
            Err(e) => {
                proof {
                    lemma_dest_reqs_prefix_err(policies@, p + 1, *dest);
                }
                return Err(e);
            },
        }
        p = p + 1;
    }
    proof {
        assert(policies@.take(policies.len() as int) =~= policies@);
    }
    Ok(all_reqs)
}

/// For each destination, in order: its address, the per-attribute key compiled from the
/// merged requirements of every rule of every policy that may apply to it, and the key's
/// semantics. The first destination whose compilation fails ends the walk with its error.
pub fn build_dest_requirement_bits(
    policies: &[Policy],
    dest_entities: &[DestinationEntity],
    attr_id_map: &AttrIdMap,
    source_attr_order: &[&str],
    trust_score_thresholds: &[i64],
) -> (r: Result<Vec<(String, Vec<(String, String)>, KeySemantics)>, AbacError>)
    ensures
        match r {
            Ok(v) => v.len() == dest_entities.len() && forall|i: int|
                0 <= i < v.len() ==> (#[trigger] v@[i]).0@ == dest_entities@[i].ip@ && dest_key(
                    policies@,
                    dest_entities@[i],
                    *attr_id_map,
                    names(source_attr_order@),
                    trust_score_thresholds@,
                ) == Ok::<(Seq<(Seq<char>, Seq<char>)>, bool), ErrorKind>(
                    (pairs_view(v@[i].1@), v@[i].2.use_trust_score_threshold),
                ),
            Err(e) => exists|i: int|
                0 <= i < dest_entities.len() && dest_key(
                    policies@,
                    #[trigger] dest_entities@[i],
                    *attr_id_map,
                    names(source_attr_order@),
                    trust_score_thresholds@,
                ) == Err::<(Seq<(Seq<char>, Seq<char>)>, bool), ErrorKind>(e.kind()),
        },
{
    let ghost order = names(source_attr_order@);
    let mut result: Vec<(String, Vec<(String, String)>, KeySemantics)> = Vec::new();
    let mut d: usize = 0;
    while d < dest_entities.len()
        invariant
            d <= dest_entities.len(),
            order == names(source_attr_order@),
            result.len() == d,
            forall|i: int|
                0 <= i < d ==> (#[trigger] result@[i]).0@ == dest_entities@[i].ip@ && dest_key(
                    policies@,
                    dest_entities@[i],
                    *attr_id_map,
                    order,
                    trust_score_thresholds@,
                ) == Ok::<(Seq<(Seq<char>, Seq<char>)>, bool), ErrorKind>(
                    (pairs_view(result@[i].1@), result@[i].2.use_trust_score_threshold),
                ),
        decreases dest_entities.len() - d,
    {
        let dest = &dest_entities[d];
        let all_reqs = match dest_requirements(policies, dest) {
            Ok(v) => v,
            Err(e) => {
                proof {
                    assert(dest_entities@[d as int] == *dest);
                }
                return Err(e);
            },
        };
        let ghost reqs = reqs_view(all_reqs@);
        let merged_reqs = match merge_requirements(all_reqs) {
            Ok(m) => m,
            Err(e) => {
                return Err(e);
            },
        };
        match merged_requirements_to_key_bits_per_attr(
            attr_id_map,
            &merged_reqs,
            source_attr_order,
            trust_score_thresholds,
        ) {
            Ok((key_bits, semantics)) => {
                result.push((dest.ip.clone(), key_bits, semantics));
            },
            Err(e) => {
                proof {
                    assert(dest_entities@[d as int] == *dest);
                }
                return Err(e);
            },
        }
        d = d + 1;
    }
    Ok(result)
}

} // verus!
