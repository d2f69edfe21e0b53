use sayit::tag_impls::Literal;
use sayit::{Intensity, Pass, Tag};

fn literal_pass(rules: &[(&str, &str)]) -> Pass {
    let mut list: Vec<(String, Box<dyn Tag>)> = Vec::new();
    for (pattern, body) in rules {
        list.push((pattern.to_string(), Literal::new_boxed(body)));
    }
    Pass::new(list).unwrap()
}

// Two lists of passes are the same when the passes have, one by one, the same
// patterns in the same order and make the same of every probe.
fn assert_same(left: &Vec<Pass>, right: &Vec<Pass>, probes: &[&str]) {
    assert_eq!(left.len(), right.len());
    for (a, b) in left.iter().zip(right.iter()) {
        assert_eq!(a.regexes(), b.regexes());
        for probe in probes {
            assert_eq!(a.apply(probe), b.apply(probe));
        }
    }
}

#[test]
fn intensity_rules_replaced() {
    let old_pass = Pass::new(vec![
        ("old".to_string(), Literal::new_boxed("old")),
        ("old2".to_string(), Literal::new_boxed("old2")),
    ])
    .unwrap();

    let new_pass = Pass::new(vec![("old".to_string(), Literal::new_boxed("new"))]).unwrap();

    let old = Intensity::new(0, vec![("".to_string(), old_pass)]);

    let extended = old.extend(1, vec![("".to_string(), new_pass)]).unwrap();
    let expected = Pass::new(vec![
        ("old".to_string(), Literal::new_boxed("new")),
        ("old2".to_string(), Literal::new_boxed("old2")),
    ])
    .unwrap();

    assert_eq!(extended.level(), 1);
    assert_same(extended.passes(), &vec![expected], &["old", "old2", "old old2"]);
    assert_eq!(extended.names(), &vec!["".to_string()]);
}

#[test]
fn intensity_rules_appended() {
    let old_pass =
        Pass::new(vec![("existing".to_string(), Literal::new_boxed("old"))]).unwrap();
    let new_pass = Pass::new(vec![("added".to_string(), Literal::new_boxed("new"))]).unwrap();

    let old = Intensity::new(0, vec![("".to_string(), old_pass)]);

    let extended = old.extend(1, vec![("".to_string(), new_pass)]).unwrap();
    let expected = Pass::new(vec![
        ("existing".to_string(), Literal::new_boxed("old")),
        ("added".to_string(), Literal::new_boxed("new")),
    ])
    .unwrap();

    assert_same(
        extended.passes(),
        &vec![expected],
        &["existing", "added", "existing added"],
    );
    assert_eq!(extended.names(), &vec!["".to_string()]);
}

#[test]
fn passes_appended() {
    let old_pass = ("old".to_string(), Pass::new(Vec::new()).unwrap());
    let new_pass = ("new".to_string(), Pass::new(Vec::new()).unwrap());

    let old = Intensity::new(0, vec![old_pass]);

    let extended = old.extend(1, vec![new_pass]).unwrap();
    let expected = vec![
        Pass::new(Vec::new()).unwrap(),
        Pass::new(Vec::new()).unwrap(),
    ];

    assert_same(extended.passes(), &expected, &["old", "new"]);
    assert_eq!(extended.names(), &vec!["old".to_string(), "new".to_string()]);
}

#[test]
fn intensity_applies_passes_in_order() {
    let level = Intensity::new(
        3,
        vec![
            ("first".to_string(), literal_pass(&[("a", "b")])),
            ("second".to_string(), literal_pass(&[("b", "c")])),
        ],
    );

    assert_eq!(level.level(), 3);
    assert_eq!(level.apply("a b x"), "c c x");
    assert_eq!(level.apply("xyz"), "xyz");

    let turned = Intensity::new(
        3,
        vec![
            ("second".to_string(), literal_pass(&[("b", "c")])),
            ("first".to_string(), literal_pass(&[("a", "b")])),
        ],
    );
    assert_eq!(turned.apply("a b x"), "b c x");
}

#[test]
fn intensity_without_passes_changes_nothing() {
    let level = Intensity::new(0, Vec::new());

    assert_eq!(level.apply("anything"), "anything");
    assert!(level.passes().is_empty());
    assert!(level.names().is_empty());
}

#[test]
fn intensity_extend_leaves_the_base_alone() {
    let base = Intensity::new(0, vec![("p".to_string(), literal_pass(&[("a", "1")]))]);

    let extended = base
        .extend(
            2,
            vec![
                ("q".to_string(), literal_pass(&[("1", "one")])),
                ("p".to_string(), literal_pass(&[("a", "2"), ("b", "3")])),
                ("p".to_string(), literal_pass(&[("c", "4")])),
            ],
        )
        .unwrap();

    assert_eq!(extended.level(), 2);
    assert_eq!(extended.names(), &vec!["p".to_string(), "q".to_string()]);
    assert_eq!(
        extended.passes()[0].regexes(),
        &vec!["a".to_string(), "b".to_string(), "c".to_string()]
    );
    assert_eq!(extended.apply("a b c 1"), "2 3 4 one");

    assert_eq!(base.level(), 0);
    assert_eq!(base.names(), &vec!["p".to_string()]);
    assert_eq!(base.apply("a b c 1"), "1 b c 1");
}

#[test]
fn intensity_extend_keeps_new_passes_of_one_name_apart() {
    let base = Intensity::new(0, Vec::new());

    let extended = base
        .extend(
            1,
            vec![
                ("n".to_string(), literal_pass(&[("a", "b")])),
                ("n".to_string(), literal_pass(&[("b", "c")])),
            ],
        )
        .unwrap();

    assert_eq!(extended.names(), &vec!["n".to_string(), "n".to_string()]);
    assert_eq!(extended.apply("a"), "c");
}

#[test]
fn intensity_replace_drops_the_old_passes() {
    let base = Intensity::new(0, vec![("p".to_string(), literal_pass(&[("a", "1")]))]);

    let replaced = base.replace(4, vec![("q".to_string(), literal_pass(&[("b", "2")]))]);

    assert_eq!(replaced.level(), 4);
    assert_eq!(replaced.names(), &vec!["q".to_string()]);
    assert_eq!(replaced.apply("a b"), "a 2");
    assert_eq!(base.apply("a b"), "1 b");
}
