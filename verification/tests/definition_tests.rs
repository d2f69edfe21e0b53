use sayit::definition::{
    accent_from_definition, check_key, check_level, check_unique, check_written,
    default_pass_format, pass_from_definition, repeated_key, stack_levels, DefinitionError,
    IntensityDef,
};
use sayit::tag_impls::{Literal, Original};
use sayit::{Pass, Tag};

fn rules(list: &[(&str, &str)]) -> Vec<(String, Box<dyn Tag>)> {
    let mut made: Vec<(String, Box<dyn Tag>)> = Vec::new();
    for (pattern, body) in list {
        made.push((pattern.to_string(), Literal::new_boxed(body)));
    }
    made
}

fn words(list: &[(&str, &str)]) -> Pass {
    pass_from_definition(r"\b{}\b", rules(list)).unwrap()
}

fn plain(list: &[(&str, &str)]) -> Pass {
    pass_from_definition(&default_pass_format(), rules(list)).unwrap()
}

#[test]
fn default_format_is_the_pattern_itself() {
    assert_eq!(default_pass_format(), "{}");
    let pass = plain(&[("a+", "b")]);

    assert_eq!(pass.regexes(), &vec!["a+".to_string()]);
    assert_eq!(pass.apply("caaat"), "cbt");
}

#[test]
fn format_wraps_every_pattern() {
    let pass = words(&[("a", "x"), ("be", "y")]);

    assert_eq!(
        pass.regexes(),
        &vec![r"\ba\b".to_string(), r"\bbe\b".to_string()]
    );
    assert_eq!(pass.apply("a bee be banana"), "x bee y banana");
}

#[test]
fn pass_duplicated_regexes_now_allowed() {
    let error = pass_from_definition(
        "{}",
        rules(&[("dupew", "0"), ("dupew", "1"), ("dupew", "2")]),
    )
    .err()
    .unwrap();

    assert!(matches!(&error, DefinitionError::DuplicatedKey(key) if key == "dupew"));
    assert_eq!(error.message(), "duplicated key: dupew");
}

#[test]
fn first_repeated_key_is_reported() {
    let list = rules(&[("a", "0"), ("b", "1"), ("c", "2"), ("b", "3"), ("a", "4")]);

    assert_eq!(repeated_key(&list), Some(3));
    assert_eq!(
        check_unique(&list).err().unwrap().message(),
        "duplicated key: b"
    );
    assert_eq!(repeated_key(&rules(&[("a", "0"), ("b", "1")])), None);
    assert!(check_unique(&rules(&[])).is_ok());
}

#[test]
fn pass_definition_faults_in_order() {
    // a repeated key comes before a format that cannot be filled
    let error = pass_from_definition("no slot", rules(&[("a", "0"), ("a", "1")]))
        .err()
        .unwrap();
    assert_eq!(error.message(), "duplicated key: a");

    // and a format that cannot be filled before a pattern that does not compile
    let error = pass_from_definition("no slot", rules(&[("(", "0")]))
        .err()
        .unwrap();
    assert!(matches!(&error, DefinitionError::Format(_)));
    assert_eq!(error.message(), "string did not contain {} template");

    let error = pass_from_definition("{}", rules(&[("fine", "0"), ("(", "1")]))
        .err()
        .unwrap();
    assert!(matches!(&error, DefinitionError::Pass(_)));
    assert!(error
        .message()
        .starts_with("regex combination failed: msg: "));

    // without rules no key is there to fill the format with
    assert!(pass_from_definition("no slot", rules(&[])).is_ok());
}

#[test]
fn level_numbers_are_checked() {
    assert!(check_level(&vec![1, 2, 5], 0).is_ok());
    assert!(check_level(&vec![1, 2, 5], 1).is_ok());
    assert!(check_level(&vec![1, 2, 5], 2).is_ok());
    assert_eq!(
        check_level(&vec![1, 0], 1).err().unwrap().message(),
        "intensity cannot be 0"
    );
    assert_eq!(
        check_level(&vec![0], 0).err().unwrap().message(),
        "intensity cannot be 0"
    );
    assert_eq!(
        check_level(&vec![3, 4, 3], 2).err().unwrap().message(),
        "duplicate intensity level: 3"
    );
    assert_eq!(
        check_level(&vec![3, 3], 1).err().unwrap().message(),
        "duplicate intensity level: 3"
    );
    assert_eq!(
        check_level(&vec![3, 12, 7], 2).err().unwrap().message(),
        "intensities out of order: 12 > 7"
    );
    // only the level asked about is checked
    assert!(check_level(&vec![3, 12, 7], 1).is_ok());
}

#[test]
fn intensity_0_not_allowed() {
    let error = accent_from_definition(
        Vec::new(),
        vec![(0, IntensityDef::Extend(Vec::new()))],
    )
    .err()
    .unwrap();

    assert!(matches!(error, DefinitionError::IntensityZero));
    assert_eq!(error.message(), "intensity cannot be 0");
}

#[test]
fn written_faults_in_order() {
    // names of the base come first
    let base = vec![("p".to_string(), plain(&[])), ("p".to_string(), plain(&[]))];
    let levels = vec![(0, IntensityDef::Replace(Vec::new()))];
    assert_eq!(
        check_written(&base, &levels).err().unwrap().message(),
        "duplicated key: p"
    );

    // then the levels one by one, the names of a level before its number
    let base = vec![("p".to_string(), plain(&[]))];
    let levels = vec![
        (2, IntensityDef::Replace(Vec::new())),
        (
            1,
            IntensityDef::Extend(vec![("q".to_string(), plain(&[])), ("q".to_string(), plain(&[]))]),
        ),
        (0, IntensityDef::Replace(Vec::new())),
    ];
    assert_eq!(
        check_written(&base, &levels).err().unwrap().message(),
        "duplicated key: q"
    );

    let levels = vec![
        (2, IntensityDef::Replace(Vec::new())),
        (1, IntensityDef::Extend(Vec::new())),
        (0, IntensityDef::Replace(Vec::new())),
    ];
    assert_eq!(
        check_written(&base, &levels).err().unwrap().message(),
        "intensities out of order: 2 > 1"
    );

    let levels = vec![
        (1, IntensityDef::Replace(Vec::new())),
        (2, IntensityDef::Extend(Vec::new())),
    ];
    assert!(check_written(&base, &levels).is_ok());
    assert!(check_written(&Vec::new(), &Vec::new()).is_ok());
}

#[test]
fn minimal_accent() {
    let accent = accent_from_definition(Vec::new(), Vec::new()).unwrap();

    assert_eq!(accent.intensities(), vec![0]);
    assert_eq!(accent.say_it("nothing changes", 3), "nothing changes");

    let accent =
        accent_from_definition(vec![("".to_string(), plain(&[]))], Vec::new()).unwrap();

    assert_eq!(accent.intensities(), vec![0]);
    assert_eq!(accent.say_it("nothing changes", 0), "nothing changes");
}

#[test]
fn intensity_selection() {
    let accent = accent_from_definition(
        vec![("words".to_string(), words(&[("intensity", "0")]))],
        vec![
            (
                1,
                IntensityDef::Replace(vec![("words".to_string(), words(&[("intensity", "1")]))]),
            ),
            (
                5,
                IntensityDef::Replace(vec![("words".to_string(), words(&[("intensity", "5")]))]),
            ),
        ],
    )
    .unwrap();

    assert_eq!(accent.intensities(), vec![0, 1, 5]);
    assert_eq!(accent.say_it("intensity", 0), "0");
    assert_eq!(accent.say_it("intensity", 1), "1");
    assert_eq!(accent.say_it("intensity", 4), "1");
    assert_eq!(accent.say_it("intensity", 5), "5");
    assert_eq!(accent.say_it("intensity", 9000 + 1), "5");
}

#[test]
fn extend_extends() {
    let base = vec![
        ("words".to_string(), words(&[("a", "1")])),
        ("patterns".to_string(), plain(&[("1", "one")])),
    ];
    let levels = vec![(
        1,
        IntensityDef::Extend(vec![
            ("words".to_string(), words(&[("b", "2")])),
            ("patterns".to_string(), plain(&[("2", "two")])),
        ]),
    )];
    let accent = accent_from_definition(base, levels).unwrap();

    assert_eq!(accent.say_it("a b ab", 0), "one b ab");
    assert_eq!(accent.say_it("a b ab", 1), "one two ab");
}

#[test]
fn replace_replaces() {
    let base = vec![
        ("words".to_string(), words(&[("a", "1")])),
        ("patterns".to_string(), plain(&[("1", "one")])),
    ];
    let levels = vec![(
        1,
        IntensityDef::Replace(vec![("words".to_string(), words(&[("b", "2")]))]),
    )];
    let accent = accent_from_definition(base, levels).unwrap();

    assert_eq!(accent.say_it("a b ab", 0), "one b ab");
    assert_eq!(accent.say_it("a b ab", 1), "a 2 ab");
}

#[test]
fn levels_are_made_from_the_level_before() {
    let base = vec![("p".to_string(), plain(&[("a", "1")]))];
    let levels = vec![
        (2, IntensityDef::Extend(vec![("p".to_string(), plain(&[("b", "2")]))])),
        (4, IntensityDef::Extend(vec![("p".to_string(), plain(&[("a", "3")]))])),
        (6, IntensityDef::Replace(vec![("q".to_string(), plain(&[("c", "4")]))])),
        (8, IntensityDef::Extend(vec![("p".to_string(), plain(&[("a", "5")]))])),
    ];
    let made = stack_levels(base, levels).unwrap();

    assert_eq!(made.len(), 5);
    let numbers: Vec<u64> = made.iter().map(|level| level.level()).collect();
    assert_eq!(numbers, vec![0, 2, 4, 6, 8]);
    assert_eq!(made[0].apply("a b c"), "1 b c");
    assert_eq!(made[1].apply("a b c"), "1 2 c");
    assert_eq!(made[2].apply("a b c"), "3 2 c");
    assert_eq!(made[3].apply("a b c"), "a b 4");
    assert_eq!(made[4].names(), &vec!["q".to_string(), "p".to_string()]);
    assert_eq!(made[4].apply("a b c"), "5 b 4");
}

#[test]
fn written_passes_may_hold_any_tag() {
    let list: Vec<(String, Box<dyn Tag>)> = vec![("x+".to_string(), Original::new_boxed())];
    let pass = pass_from_definition("<{}>", list).unwrap();

    assert_eq!(pass.apply("a<xx>b"), "a<xx>b");
    assert_eq!(pass.regexes(), &vec!["<x+>".to_string()]);
}

#[test]
fn key_is_checked_against_the_entries_held() {
    let held = rules(&[("a", "0"), ("b", "1")]);

    assert!(check_key(&held, &"c".to_string()).is_ok());
    assert!(check_key(&held, &"".to_string()).is_ok());
    assert_eq!(
        check_key(&held, &"b".to_string()).err().unwrap().message(),
        "duplicated key: b"
    );
    assert!(check_key(&rules(&[]), &"a".to_string()).is_ok());
}
