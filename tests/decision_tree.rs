use abac_policy::decision_tree::{DecisionTree, Example, SplitCriterion};

/// ID3's criterion: the attribute with the largest information gain.
struct InformationGain;

fn entropy(examples: &[Example]) -> f64 {
    if examples.is_empty() {
        return 0.0;
    }
    let mut counts: Vec<(String, usize)> = Vec::new();
    for ex in examples {
        match counts.iter_mut().find(|(c, _)| *c == ex.class) {
            Some((_, n)) => *n += 1,
            None => counts.push((ex.class.clone(), 1)),
        }
    }
    let total = examples.len() as f64;
    counts
        .iter()
        .map(|(_, n)| {
            let p = *n as f64 / total;
            if p > 0.0 {
                -p * p.log2()
            } else {
                0.0
            }
        })
        .sum()
}

impl SplitCriterion for InformationGain {
    fn best_attribute(&self, examples: &Vec<Example>, attributes: &Vec<String>) -> usize {
        let base = entropy(examples);
        let total = examples.len() as f64;
        let mut best = 0;
        let mut best_gain = 0.0;
        for (i, attr) in attributes.iter().enumerate() {
            let mut values: Vec<String> = Vec::new();
            for ex in examples {
                if let Some(v) = ex.get_attribute_value(attr) {
                    if !values.contains(v) {
                        values.push(v.clone());
                    }
                }
            }
            let mut weighted = 0.0;
            for v in &values {
                let subset: Vec<Example> = examples
                    .iter()
                    .filter(|ex| ex.get_attribute_value(attr) == Some(v))
                    .cloned()
                    .collect();
                if !subset.is_empty() {
                    weighted += (subset.len() as f64 / total) * entropy(&subset);
                }
            }
            let gain = base - weighted;
            if gain > best_gain {
                best_gain = gain;
                best = i;
            }
        }
        best
    }
}

#[test]
fn test_decision_tree() {
    let mut examples = Vec::new();

    let mut ex1 = Example::new("no".to_string());
    ex1.add_attribute("outlook".to_string(), "sunny".to_string());
    ex1.add_attribute("temperature".to_string(), "hot".to_string());
    ex1.add_attribute("humidity".to_string(), "high".to_string());
    ex1.add_attribute("wind".to_string(), "weak".to_string());
    examples.push(ex1);

    let mut ex2 = Example::new("no".to_string());
    ex2.add_attribute("outlook".to_string(), "sunny".to_string());
    ex2.add_attribute("temperature".to_string(), "hot".to_string());
    ex2.add_attribute("humidity".to_string(), "high".to_string());
    ex2.add_attribute("wind".to_string(), "strong".to_string());
    examples.push(ex2);

    let mut ex3 = Example::new("yes".to_string());
    ex3.add_attribute("outlook".to_string(), "overcast".to_string());
    ex3.add_attribute("temperature".to_string(), "hot".to_string());
    ex3.add_attribute("humidity".to_string(), "high".to_string());
    ex3.add_attribute("wind".to_string(), "weak".to_string());
    examples.push(ex3);

    let mut ex4 = Example::new("yes".to_string());
    ex4.add_attribute("outlook".to_string(), "rain".to_string());
    ex4.add_attribute("temperature".to_string(), "mild".to_string());
    ex4.add_attribute("humidity".to_string(), "high".to_string());
    ex4.add_attribute("wind".to_string(), "weak".to_string());
    examples.push(ex4);

    let mut tree = DecisionTree::new();
    let attributes = vec![
        "outlook".to_string(),
        "temperature".to_string(),
        "humidity".to_string(),
        "wind".to_string(),
    ];
    tree.build(&examples, &attributes, &InformationGain);

    let mut test_ex = Example::new("unknown".to_string());
    test_ex.add_attribute("outlook".to_string(), "sunny".to_string());
    test_ex.add_attribute("temperature".to_string(), "mild".to_string());
    test_ex.add_attribute("humidity".to_string(), "high".to_string());
    test_ex.add_attribute("wind".to_string(), "weak".to_string());

    let prediction = tree.predict(&test_ex);
    println!("Prediction: {:?}", prediction);

    println!("{}", tree.render());
}

#[test]
fn tree_splits_on_outlook_and_predicts_from_it() {
    let mut examples = Vec::new();
    for (outlook, class) in [("sunny", "no"), ("sunny", "no"), ("overcast", "yes"), ("rain", "yes")] {
        let mut ex = Example::new(class.to_string());
        ex.add_attribute("outlook".to_string(), outlook.to_string());
        examples.push(ex);
    }
    let mut tree = DecisionTree::new();
    tree.build(&examples, &vec!["outlook".to_string()], &InformationGain);
    let mut q = Example::new("unknown".to_string());
    q.add_attribute("outlook".to_string(), "sunny".to_string());
    assert_eq!(tree.predict(&q), Some("no".to_string()));
    q.add_attribute("outlook".to_string(), "rain".to_string());
    assert_eq!(tree.predict(&q), Some("yes".to_string()));
    assert_eq!(
        tree.render(),
        "Attribute: outlook\n  Value: sunny\n    Leaf: no\n  Value: overcast\n    Leaf: yes\n  Value: rain\n    Leaf: yes\n"
    );
}

#[test]
fn empty_tree_predicts_nothing() {
    let tree = DecisionTree::new();
    assert_eq!(tree.predict(&Example::new("x".to_string())), None);
    assert_eq!(tree.render(), "");
}

#[test]
fn agreeing_examples_give_a_leaf() {
    let mut a = Example::new("yes".to_string());
    a.add_attribute("k".to_string(), "v".to_string());
    let mut tree = DecisionTree::new();
    tree.build(&vec![a.clone(), a], &vec!["k".to_string()], &InformationGain);
    assert_eq!(tree.predict(&Example::new("q".to_string())), Some("yes".to_string()));
}

#[test]
fn later_attribute_value_replaces_earlier() {
    let mut a = Example::new("c".to_string());
    a.add_attribute("k".to_string(), "v1".to_string());
    a.add_attribute("k".to_string(), "v2".to_string());
    assert_eq!(a.get_attribute_value("k"), Some(&"v2".to_string()));
    assert_eq!(a.get_attribute_value("missing"), None);
}
