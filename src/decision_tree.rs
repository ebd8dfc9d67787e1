//! A small decision-tree classifier over string-valued examples, built top-down with a
//! caller-chosen split criterion.
use vstd::prelude::*;

use crate::text::{find_named, find_named_index, first_named, put_named};

verus! {

broadcast use vstd::std_specs::vec::group_vec_axioms, vstd::seq::group_seq_axioms;

/// A training or query example: string attributes and a class label.
#[derive(Debug, Clone)]
pub struct Example {
    /// Pairs of an attribute name and its value; the first pair for a name counts.
    pub attributes: Vec<(String, String)>,
    pub class: String,
}

impl Example {
    /// The value of attribute `name`.
    pub open spec fn value_of(&self, name: Seq<char>) -> Option<Seq<char>> {
        match find_named(self.attributes@, name) {
            Some(v) => Some(v@),
            None => None,
        }
    }

    /// An example of class `class` with no attributes.
    pub fn new(class: String) -> (r: Example)
        ensures
            r.class == class,
            forall|name: Seq<char>| r.value_of(name) is None,
    {
        Example { attributes: Vec::new(), class }
    }

    /// Sets attribute `key` to `value`, replacing an earlier value.
    pub fn add_attribute(&mut self, key: String, value: String)
        ensures
            final(self).class == old(self).class,
            final(self).value_of(key@) == Some(value@),
            forall|name: Seq<char>|
                name != key@ ==> final(self).value_of(name) == old(self).value_of(name),
    {
        put_named(&mut self.attributes, key, value);
    }

    /// The value of attribute `attribute`, if set.
    pub fn get_attribute_value(&self, attribute: &str) -> (r: Option<&String>)
        ensures
            match r {
                Some(v) => self.value_of(attribute@) == Some(v@),
                None => self.value_of(attribute@) is None,
            },
    {
        match find_named_index(&self.attributes, attribute) {
            Some(i) => Some(&self.attributes[i].1),
            None => None,
        }
    }
}

/// A node of a decision tree.
#[derive(Debug)]
pub enum Node {
    /// Splits on `attribute`; one child per value seen, in order of first appearance.
    Internal { attribute: String, children: Vec<(String, Node)> },
    /// Decides `decision`.
    Leaf { decision: String },
}

/// Chooses the attribute to split on; how is up to the implementor (for instance the
/// information gain of ID3). The result is an index into `attributes`; one out of range
/// selects the first attribute.
pub trait SplitCriterion {
    fn best_attribute(&self, examples: &Vec<Example>, attributes: &Vec<String>) -> usize;
}

/// A decision tree; empty until built.
#[derive(Debug)]
pub struct DecisionTree {
    root: Option<Node>,
}

/// How many of `xs` equal `x`.
pub open spec fn count_of(xs: Seq<Seq<char>>, x: Seq<char>) -> nat
    decreases xs.len(),
{
    if xs.len() == 0 {
        0
    } else {
        count_of(xs.drop_last(), x) + if xs.last() == x {
            1nat
        } else {
            0nat
        }
    }
}

/// The index, among the first `n` of `xs`, of the first element with the largest count.
pub open spec fn majority_index(xs: Seq<Seq<char>>, n: nat) -> int
    decreases n,
{
    if n <= 1 {
        0
    } else {
        let b = majority_index(xs, (n - 1) as nat);
        if count_of(xs, xs[n - 1]) > count_of(xs, xs[b]) {
            n - 1
        } else {
            b
        }
    }
}

/// The most frequent element of `xs` (the first such on ties); `unknown` when empty.
pub open spec fn majority(xs: Seq<Seq<char>>) -> Seq<char> {
    if xs.len() == 0 {
        "unknown"@
    } else {
        xs[majority_index(xs, xs.len())]
    }
}

/// The class labels of `examples`.
pub open spec fn classes(examples: Seq<Example>) -> Seq<Seq<char>> {
    examples.map_values(|e: Example| e.class@)
}

/// What a node predicts for `ex`: follow the child for the example's value, the first
/// child for an unseen value, or take the majority of all children's predictions when
/// the example lacks the attribute.
pub open spec fn predict_node(n: Node, ex: Example) -> Seq<char>
    decreases n,
{
    match n {
        Node::Leaf { decision } => decision@,
        Node::Internal { attribute, children } => match ex.value_of(attribute@) {
            Some(v) => match first_named(children@, v) {
                Some(i) => if 0 <= i < children.len() {
                    predict_node(children@[i].1, ex)
                } else {
                    "unknown"@
                },
                None => if children.len() > 0 {
                    predict_node(children@[0].1, ex)
                } else {
                    "unknown"@
                },
            },
            None => majority(predict_children(children@, ex)),
        },
    }
}

/// The predictions of every child, in order.
pub open spec fn predict_children(children: Seq<(String, Node)>, ex: Example) -> Seq<Seq<char>>
    decreases children,
{
    if children.len() == 0 {
        Seq::empty()
    } else {
        predict_children(children.drop_last(), ex).push(predict_node(children.last().1, ex))
    }
}

proof fn lemma_count_step(xs: Seq<Seq<char>>, x: Seq<char>, i: int)
    requires
        0 <= i < xs.len(),
    ensures
        count_of(xs.take(i + 1), x) == count_of(xs.take(i), x) + if xs[i] == x {
            1nat
        } else {
            0nat
        },
{
    assert(xs.take(i + 1).drop_last() =~= xs.take(i));
}

fn count_in(xs: &Vec<String>, x: &String) -> (r: usize)
    ensures
        r == count_of(xs.deep_view(), x@),
{
    let mut c: usize = 0;
    let mut i: usize = 0;
    proof {
        assert(xs.deep_view().take(0) =~= Seq::<Seq<char>>::empty());
    }
    while i < xs.len()
        invariant
            i <= xs.len(),
            c == count_of(xs.deep_view().take(i as int), x@),
            c <= i,
        decreases xs.len() - i,
    {
        proof {
            lemma_count_step(xs.deep_view(), x@, i as int);
        }
        if xs[i] == *x {
            c = c + 1;
        }
        i = i + 1;
    }
    proof {
        assert(xs.deep_view().take(xs.len() as int) =~= xs.deep_view());
    }
    c
}

/// The most frequent string of `xs` (the first such on ties), or `unknown`.
fn majority_of(xs: &Vec<String>) -> (r: String)
    ensures
        r@ == majority(xs.deep_view()),
{
    if xs.len() == 0 {
        proof {
            reveal_strlit("unknown");
        }
        return String::from_str("unknown");
    }
    let mut best: usize = 0;
    let mut best_count = count_in(xs, &xs[0]);
    let mut i: usize = 1;
    while i < xs.len()
        invariant
            1 <= i <= xs.len(),
            best < xs.len(),
            best == majority_index(xs.deep_view(), i as nat),
            best_count == count_of(xs.deep_view(), xs.deep_view()[best as int]),
        decreases xs.len() - i,
    {
        let c = count_in(xs, &xs[i]);
        if c > best_count {
            best = i;
            best_count = c;
        }
        i = i + 1;
    }
    xs[best].clone()
}

impl DecisionTree {
    /// The root node, if built.
    pub closed spec fn root(&self) -> Option<Node> {
        self.root
    }

    /// An empty tree.
    pub fn new() -> (r: DecisionTree)
        ensures
            r.root() is None,
    {
        DecisionTree { root: None }
    }

    /// Builds the tree from `examples`, splitting on `attributes` in the order `criterion`
    /// picks them.
    pub fn build<C: SplitCriterion>(
        &mut self,
        examples: &Vec<Example>,
        attributes: &Vec<String>,
        criterion: &C,
    )
        ensures
            final(self).root() matches Some(n) && grown_from(n, examples@, attributes.deep_view()),
    {
        self.root = Some(build_tree(examples, attributes, criterion));
    }

    /// The decision for `example`; `None` for an empty tree.
    pub fn predict(&self, example: &Example) -> (r: Option<String>)
        ensures
            match self.root() {
                Some(n) => r matches Some(s) && s@ == predict_node(n, *example),
                None => r is None,
            },
    {
        match &self.root {
            Some(root) => Some(predict_recursive(root, example)),
            None => None,
        }
    }
}

fn predict_recursive(node: &Node, example: &Example) -> (r: String)
    ensures
        r@ == predict_node(*node, *example),
    decreases node,
{
    match node {
        Node::Leaf { decision } => decision.clone(),
        Node::Internal { attribute, children } => {
            match example.get_attribute_value(attribute.as_str()) {
                Some(value) => match find_named_index(children, value.as_str()) {
                    Some(i) => predict_recursive(&children[i].1, example),
                    None => {
                        if children.len() > 0 {
                            predict_recursive(&children[0].1, example)
                        } else {
                            proof {
                                reveal_strlit("unknown");
                            }
                            String::from_str("unknown")
                        }
                    },
                },
                None => {
                    let decisions = predict_all(children, example);
                    majority_of(&decisions)
                },
            }
        },
    }
}

fn predict_all(children: &Vec<(String, Node)>, example: &Example) -> (r: Vec<String>)
    ensures
        r.deep_view() == predict_children(children@, *example),
    decreases children,
{
    let mut out: Vec<String> = Vec::new();
    let mut i: usize = 0;
    proof {
        assert(children@.take(0) =~= Seq::<(String, Node)>::empty());
        assert(out.deep_view() =~= Seq::<Seq<char>>::empty());
    }
    while i < children.len()
        invariant
            i <= children.len(),
            out.deep_view() == predict_children(children@.take(i as int), *example),
        decreases children.len() - i,
    {
        proof {
            assert(children@.take(i + 1).drop_last() =~= children@.take(i as int));
            assert(children@.take(i + 1).last() == children@[i as int]);
        }
        let d = predict_recursive(&children[i].1, example);
        let ghost before = out.deep_view();
        out.push(d);
        proof {
            assert(out.deep_view() =~= before.push(d@));
        }
        i = i + 1;
    }
    proof {
        assert(children@.take(children.len() as int) =~= children@);
    }
    out
}

/// The class shared by all examples, if there are any and they agree.
fn all_same_class(examples: &Vec<Example>) -> (r: Option<String>)
    ensures
        match r {
            Some(c) => examples.len() > 0 && forall|i: int|
                0 <= i < examples.len() ==> (#[trigger] examples@[i]).class@ == c@,
            None => examples.len() == 0 || exists|i: int|
                0 <= i < examples.len() && (#[trigger] examples@[i]).class@ != examples@[0].class@,
        },
{
    if examples.len() == 0 {
        return None;
    }
    let mut i: usize = 1;
    while i < examples.len()
        invariant
            1 <= i <= examples.len(),
            forall|k: int| 0 <= k < i ==> (#[trigger] examples@[k]).class@ == examples@[0].class@,
        decreases examples.len() - i,
    {
        if examples[i].class != examples[0].class {
            return None;
        }
        i = i + 1;
    }
    Some(examples[0].class.clone())
}

/// The most frequent class of `examples` (the first such on ties), or `unknown`.
fn majority_class(examples: &Vec<Example>) -> (r: String)
    ensures
        r@ == majority(classes(examples@)),
{
    let mut labels: Vec<String> = Vec::new();
    let mut i: usize = 0;
    while i < examples.len()
        invariant
            i <= examples.len(),
            labels.len() == i,
            forall|j: int| 0 <= j < i ==> labels@[j]@ == examples@[j].class@,
        decreases examples.len() - i,
    {
        labels.push(examples[i].class.clone());
        i = i + 1;
    }
    proof {
        assert(labels.deep_view() =~= classes(examples@));
    }
    majority_of(&labels)
}

/// The distinct values of `attribute` among `examples`, in order of first appearance.
fn get_attribute_values(examples: &Vec<Example>, attribute: &str) -> (r: Vec<String>)
    ensures
        forall|i: int, j: int|
            0 <= i < j < r.len() ==> r.deep_view()[i] != r.deep_view()[j],
        forall|k: int|
            0 <= k < examples.len() && (#[trigger] examples@[k]).value_of(attribute@) is Some
                ==> r.deep_view().contains(examples@[k].value_of(attribute@)->Some_0),
{
    let mut values: Vec<String> = Vec::new();
    let mut k: usize = 0;
    while k < examples.len()
        invariant
            k <= examples.len(),
            forall|i: int, j: int|
                0 <= i < j < values.len() ==> values.deep_view()[i] != values.deep_view()[j],
            forall|m: int|
                0 <= m < k && (#[trigger] examples@[m]).value_of(attribute@) is Some
                    ==> values.deep_view().contains(examples@[m].value_of(attribute@)->Some_0),
        decreases examples.len() - k,
    {
        if let Some(v) = examples[k].get_attribute_value(attribute) {
            let ghost before = values.deep_view();
            let present = crate::entity::contains_str(&values, v);
            if !present {
                values.push(v.clone());
                proof {
                    assert(values.deep_view() =~= before.push(v@));
                    assert forall|m: int|
                        0 <= m < k + 1 && (#[trigger] examples@[m]).value_of(attribute@) is Some
                            implies values.deep_view().contains(
                        examples@[m].value_of(attribute@)->Some_0,
                    ) by {
                        if m < k {
                            let x = examples@[m].value_of(attribute@)->Some_0;
                            let t = choose|t: int| 0 <= t < before.len() && before[t] == x;
                            assert(values.deep_view()[t] == x);
                        } else {
                            assert(values.deep_view()[before.len() as int] == v@);
                        }
                    }
                }
            }
        }
        k = k + 1;
    }
    values
}

/// The examples whose `attribute` is `value`, in order.
fn subset_with(examples: &Vec<Example>, attribute: &str, value: &String) -> (r: Vec<Example>)
    ensures
        r.len() <= examples.len(),
{
    let mut out: Vec<Example> = Vec::new();
    let mut k: usize = 0;
    while k < examples.len()
        invariant
            k <= examples.len(),
            out.len() <= k,
        decreases examples.len() - k,
    {
        if let Some(v) = examples[k].get_attribute_value(attribute) {
            if *v == *value {
                out.push(examples[k].clone());
            }
        }
        k = k + 1;
    }
    out
}

/// `attributes` without every copy of `a`, in order.
fn without(attributes: &Vec<String>, a: &String) -> (r: Vec<String>)
    ensures
        r.len() + count_of(attributes.deep_view(), a@) == attributes.len(),
        forall|i: int| 0 <= i < r.len() ==> r.deep_view()[i] != a@,
{
    let mut out: Vec<String> = Vec::new();
    let mut k: usize = 0;
    proof {
        assert(attributes.deep_view().take(0) =~= Seq::<Seq<char>>::empty());
    }
    while k < attributes.len()
        invariant
            k <= attributes.len(),
            out.len() + count_of(attributes.deep_view().take(k as int), a@) == k,
            forall|i: int| 0 <= i < out.len() ==> out.deep_view()[i] != a@,
        decreases attributes.len() - k,
    {
        proof {
            lemma_count_step(attributes.deep_view(), a@, k as int);
        }
        if attributes[k] != *a {
            let ghost before = out.deep_view();
            out.push(attributes[k].clone());
            proof {
                assert(out.deep_view() =~= before.push(attributes.deep_view()[k as int]));
            }
        }
        k = k + 1;
    }
    proof {
        assert(attributes.deep_view().take(attributes.len() as int) =~= attributes.deep_view());
    }
    out
}

proof fn lemma_count_positive(xs: Seq<Seq<char>>, i: int)
    requires
        0 <= i < xs.len(),
    ensures
        count_of(xs, xs[i]) >= 1,
    decreases xs.len(),
{
    if i < xs.len() - 1 {
        lemma_count_positive(xs.drop_last(), i);
    }
}

/// The examples are not empty and all have the same class.
pub open spec fn all_agree(examples: Seq<Example>) -> bool {
    examples.len() > 0 && forall|i: int|
        0 <= i < examples.len() ==> (#[trigger] examples[i]).class@ == examples[0].class@
}

/// The top of a tree grown from `examples` over `attributes`: a leaf with the shared class
/// when the examples agree, else a leaf with the majority class when no attribute is left,
/// else a split on one of the attributes.
pub open spec fn grown_from(n: Node, examples: Seq<Example>, attributes: Seq<Seq<char>>) -> bool {
    if all_agree(examples) {
        n matches Node::Leaf { decision } && decision@ == examples[0].class@
    } else if attributes.len() == 0 {
        n matches Node::Leaf { decision } && decision@ == majority(classes(examples))
    } else {
        n matches Node::Internal { attribute, .. } && attributes.contains(attribute@)
    }
}

/// Builds a subtree: a leaf when the examples agree or no attribute is left, else a
/// split on the attribute `criterion` picks, with one child per value seen.
fn build_tree<C: SplitCriterion>(examples: &Vec<Example>, attributes: &Vec<String>, criterion: &C) -> (r: Node)
    ensures
        grown_from(r, examples@, attributes.deep_view()),
    decreases attributes.len(),
{
    if let Some(decision) = all_same_class(examples) {
        return Node::Leaf { decision };
    }
    proof {
        if examples.len() > 0 {
            let k = choose|k: int|
                0 <= k < examples.len() && (#[trigger] examples@[k]).class@ != examples@[0].class@;
            assert(!all_agree(examples@));
        }
    }
    if attributes.len() == 0 {
        return Node::Leaf { decision: majority_class(examples) };
    }
    let mut pick = criterion.best_attribute(examples, attributes);
    if pick >= attributes.len() {
        pick = 0;
    }
    let best_attr = attributes[pick].clone();
    let remaining = without(attributes, &best_attr);
    proof {
        assert(attributes.deep_view()[pick as int] == best_attr@);
        lemma_count_positive(attributes.deep_view(), pick as int);
    }
    let ghost picked = best_attr@;
    let values = get_attribute_values(examples, best_attr.as_str());
    let mut children: Vec<(String, Node)> = Vec::new();
    let mut i: usize = 0;
    while i < values.len()
        invariant
            i <= values.len(),
            remaining.len() < attributes.len(),
        decreases values.len() - i,
    {
        let subset = subset_with(examples, best_attr.as_str(), &values[i]);
        let child = if subset.len() == 0 {
            Node::Leaf { decision: majority_class(examples) }
        } else {
            build_tree(&subset, &remaining, criterion)
        };
        children.push((values[i].clone(), child));
        i = i + 1;
    }
    proof {
        assert(attributes.deep_view()[pick as int] == picked);
    }
    Node::Internal { attribute: best_attr, children }
}

/// The text of a subtree whose lines start with `pad`: one line per leaf (`Leaf: d`), per
/// split (`Attribute: a`) and per branch (`  Value: v`, then the child indented by four
/// more spaces).
pub open spec fn render_node(n: Node, pad: Seq<char>) -> Seq<char>
    decreases n,
{
    match n {
        Node::Leaf { decision } => pad + "Leaf: "@ + decision@ + "\n"@,
        Node::Internal { attribute, children } => pad + "Attribute: "@ + attribute@ + "\n"@
            + render_children(children@, pad),
    }
}

/// The branches of a split whose lines start with `pad`, in order.
pub open spec fn render_children(children: Seq<(String, Node)>, pad: Seq<char>) -> Seq<char>
    decreases children,
{
    if children.len() == 0 {
        Seq::empty()
    } else {
        render_children(children.drop_last(), pad) + pad + "  Value: "@ + children.last().0@
            + "\n"@ + render_node(children.last().1, pad + "    "@)
    }
}

fn render_recursive(node: &Node, pad: &String, out: &mut String)
    ensures
        final(out)@ == old(out)@ + render_node(*node, pad@),
    decreases node,
{
    match node {
        Node::Leaf { decision } => {
            out.append(pad.as_str());
            out.append("Leaf: ");
            out.append(decision.as_str());
            out.append("\n");
            proof {
                assert(out@ =~= old(out)@ + render_node(*node, pad@));
            }
        },
        Node::Internal { attribute, children } => {
            out.append(pad.as_str());
            out.append("Attribute: ");
            out.append(attribute.as_str());
            out.append("\n");
            render_children_exec(children, pad, out);
            proof {
                assert(out@ =~= old(out)@ + render_node(*node, pad@));
            }
        },
    }
}

fn render_children_exec(children: &Vec<(String, Node)>, pad: &String, out: &mut String)
    ensures
        final(out)@ == old(out)@ + render_children(children@, pad@),
    decreases children,
{
    let mut child_pad = pad.clone();
    child_pad.append("    ");
    let mut i: usize = 0;
    proof {
        assert(children@.take(0) =~= Seq::<(String, Node)>::empty());
        assert(out@ =~= old(out)@ + render_children(children@.take(0), pad@));
    }
    while i < children.len()
        invariant
            i <= children.len(),
            child_pad@ == pad@ + "    "@,
            out@ == old(out)@ + render_children(children@.take(i as int), pad@),
        decreases children.len() - i,
    {
        proof {
            assert(children@.take(i + 1).drop_last() =~= children@.take(i as int));
            assert(children@.take(i + 1).last() == children@[i as int]);
        }
        out.append(pad.as_str());
        out.append("  Value: ");
        out.append(children[i].0.as_str());
        out.append("\n");
        render_recursive(&children[i].1, &child_pad, out);
        proof {
            assert(out@ =~= old(out)@ + render_children(children@.take(i + 1), pad@));
        }
        i = i + 1;
    }
    proof {
        assert(children@.take(children.len() as int) =~= children@);
    }
}

impl Default for DecisionTree {
    /// An empty tree.
    fn default() -> (r: DecisionTree)
        ensures
            r.root() is None,
    {
        DecisionTree::new()
    }
}

impl DecisionTree {
    /// The tree as indented text, one node per line; empty for an empty tree.
    pub fn render(&self) -> (r: String)
        ensures
            match self.root() {
                Some(n) => r@ == render_node(n, Seq::empty()),
                None => r@ == Seq::<char>::empty(),
            },
    {
        let mut out = String::new();
        if let Some(root) = &self.root {
            let pad = String::new();
            render_recursive(root, &pad, &mut out);
            proof {
                assert(out@ =~= render_node(*root, Seq::empty()));
            }
        }
        out
    }
}

} // verus!
