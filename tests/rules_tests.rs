use lang::lang::from_op;
use lang::rules::rw_rules;

#[test]
fn catalog_has_every_family() {
    let rules = rw_rules();
    assert_eq!(rules.len(), 48);
    assert_eq!(rules[0].name, "drop store");
    assert_eq!(rules[0].lhs, "(load (store ?v ?s ?p) ?p)");
    assert_eq!(rules[0].rhs, "?v");
    assert!(rules.iter().any(|r| r.name == "multiplication distribution over addition" && r.bidirectional));
    assert!(rules.iter().any(|r| r.name == "phi if true" && !r.bidirectional));
    assert!(rules.iter().any(|r| r.name == "double not"));
    assert!(rules.iter().any(|r| r.name == "lt lt false" && r.rhs == "false"));
    let mut names: Vec<&str> = rules.iter().map(|r| r.name).collect();
    names.sort();
    names.dedup();
    assert_eq!(names.len(), rules.len());
}

/// Every operator word in the patterns reads as a node.
#[test]
fn pattern_words_are_operators() {
    for rule in rw_rules() {
        for text in [rule.lhs, rule.rhs] {
            for word in text.split(|c| c == '(' || c == ')' || c == ' ').filter(|w| !w.is_empty() && !w.starts_with('?')) {
                let mut ctr: u64 = 0;
                let ok = (0..4).any(|n| from_op(word, &vec![0; n], &mut ctr).is_ok());
                assert!(ok, "{} in {}", word, rule.name);
            }
        }
    }
}
