use sayit::matching::{count_cases, LazyLiteral};
use sayit::tag_impls::literal::PrecomputedLiteral;
use sayit::utils::{count_chars_and_cases, to_title_case, LiteralString, MimicAction};

fn literal(body: &str) -> PrecomputedLiteral {
    PrecomputedLiteral::new(body.to_string())
}

#[test]
fn string_detects_template() {
    assert!(!literal("hello").has_template());
    assert!(literal("$hello").has_template());
    assert!(literal("hello $1 world").has_template());
    assert!(!literal("hello $$1 world").has_template());
    // a pair of dollars stands for a dollar, and the third refers to group 1
    assert!(literal("hello $$$1 world").has_template());
    assert!(literal("hello ${foo[bar].baz} world").has_template());
    assert!(!literal("hello $${foo[bar].baz} world").has_template());
}

#[test]
fn string_counts_chars() {
    assert_eq!(literal("hello").chars().0, 5);
    assert_eq!(literal("привет").chars().0, 6);
}

#[test]
fn string_detects_lowercase() {
    assert_eq!(literal("hello").chars().1, true);
    assert_eq!(literal("Hello").chars().1, true);
    assert_eq!(literal("1!@$#$").chars().1, false);
    assert_eq!(literal("1!@$H#$").chars().1, false);
    assert_eq!(literal("1!@$Hh#$").chars().1, true);
    assert_eq!(literal("привет").chars().1, true);
    assert_eq!(literal("ПРИВЕТ").chars().1, false);
}

#[test]
fn string_detects_uppercase() {
    assert_eq!(literal("hello").chars().2, false);
    assert_eq!(literal("Hello").chars().2, true);
    assert_eq!(literal("1!@$#$").chars().2, false);
    assert_eq!(literal("1!@$H#$").chars().2, true);
    assert_eq!(literal("1!@$Hh#$").chars().2, true);
    assert_eq!(literal("привет").chars().2, false);
    assert_eq!(literal("ПРИВЕТ").chars().2, true);
}

#[test]
fn mimic_case_input_lowercase() {
    assert_eq!(
        literal("bye").mimic_case_action("hello"),
        MimicAction::Nothing
    );
    assert_eq!(
        literal("Bye").mimic_case_action("hello"),
        MimicAction::Nothing
    );
    assert_eq!(
        literal("bYE").mimic_case_action("hello"),
        MimicAction::Nothing
    );
}

#[test]
fn mimic_case_input_titled() {
    assert_eq!(literal("bye").mimic_case_action("Hello"), MimicAction::Title);
    // has case variation -- do not touch it
    assert_eq!(
        literal("bYe").mimic_case_action("Hello"),
        MimicAction::Nothing
    );
    // non ascii title
    assert_eq!(
        literal("bye").mimic_case_action("Привет"),
        MimicAction::Title
    );
}

#[test]
fn mimic_case_input_titled_single_letter() {
    assert_eq!(literal("je").mimic_case_action("I"), MimicAction::Title);
}

#[test]
fn mimic_case_input_uppercase() {
    assert_eq!(
        literal("bye").mimic_case_action("HELLO"),
        MimicAction::Uppercase
    );
    // has case variation -- do not touch it
    assert_eq!(
        literal("bbbbYE").mimic_case_action("HELLO"),
        MimicAction::Nothing
    );
    // non ascii uppercase
    assert_eq!(
        literal("bye").mimic_case_action("ПРИВЕТ"),
        MimicAction::Uppercase
    );
    assert_eq!(
        literal("пока").mimic_case_action("HELLO"),
        MimicAction::Uppercase
    );
}

#[test]
fn mimic_case_input_mixed_case() {
    assert_eq!(
        literal("bye").mimic_case_action("hELLO"),
        MimicAction::Nothing
    );
    assert_eq!(
        literal("пока").mimic_case_action("HEllo"),
        MimicAction::Nothing
    );
    assert_eq!(
        literal("пока").mimic_case_action("HELlo"),
        MimicAction::Nothing
    );
    assert_eq!(
        literal("bye").mimic_case_action("heLlo"),
        MimicAction::Nothing
    );
}

#[test]
fn mimic_case_single_character_literal() {
    // a one-letter replacement takes uppercase even from a one-letter source
    assert_eq!(literal("e").mimic_case_action("A"), MimicAction::Uppercase);
    assert_eq!(literal("e").mimic_case_action("HELLO"), MimicAction::Uppercase);
    assert_eq!(literal("e").mimic_case_action("hello"), MimicAction::Nothing);
    assert_eq!(literal("e").mimic_case_action("hELlo"), MimicAction::Nothing);
    // a longer replacement takes a title from a one-letter source
    assert_eq!(literal("ee").mimic_case_action("A"), MimicAction::Title);
    // no letters at all: nothing to mimic
    assert_eq!(literal("e").mimic_case_action("123"), MimicAction::Nothing);
    assert_eq!(literal("e").mimic_case_action(""), MimicAction::Nothing);
    assert_eq!(literal("").mimic_case_action("HELLO"), MimicAction::Nothing);
}

#[test]
fn precomputed_variants() {
    let bye = literal("bye");
    assert_eq!(bye.body(), "bye");
    assert_eq!(bye.handle_mimic_action(MimicAction::Nothing), "bye");
    assert_eq!(bye.handle_mimic_action(MimicAction::Title), "Bye");
    assert_eq!(bye.handle_mimic_action(MimicAction::Uppercase), "BYE");
    let copy = bye.clone();
    assert_eq!(copy.body(), "bye");
    assert_eq!(copy.handle_mimic_action(MimicAction::Uppercase), "BYE");
}

#[test]
fn title_case() {
    assert_eq!(to_title_case(""), "");
    assert_eq!(to_title_case("a"), "A");
    assert_eq!(to_title_case("hello world"), "Hello world");
    assert_eq!(to_title_case("привет"), "Привет");
    // one character may become several
    assert_eq!(to_title_case("ßa"), "SSa");
}

#[test]
fn counts_chars_and_cases() {
    assert_eq!(count_chars_and_cases(""), (0, 0, 0));
    assert_eq!(count_chars_and_cases("Hello, World!"), (13, 8, 2));
    assert_eq!(count_chars_and_cases("ПРИвет"), (6, 3, 3));
}

#[test]
fn template_detection_edges() {
    assert!(!literal("").has_template());
    assert!(!literal("$").has_template());
    assert!(!literal("cost: 5$").has_template());
    assert!(literal("$_").has_template());
    assert!(literal("$0").has_template());
    assert!(!literal("$:a").has_template());
    assert!(!literal("$:").has_template());
    assert!(!literal("$-").has_template());
    assert!(!literal("$ a").has_template());
    assert!(!literal("$é").has_template());
    // braces hold any name, the empty one and one with a line end too
    assert!(literal("${}").has_template());
    assert!(literal("${a}").has_template());
    assert!(literal("${}}").has_template());
    assert!(literal("${a\n}").has_template());
    assert!(literal("${ $ } }").has_template());
    assert!(!literal("${abc").has_template());
    assert!(!literal("}${").has_template());
    assert!(!literal("$}{").has_template());
    // of dollars in a row, every second one is taken by the one before it
    assert!(!literal("$$").has_template());
    assert!(!literal("$$a").has_template());
    assert!(literal("$$$a").has_template());
    assert!(!literal("$$$$a").has_template());
    assert!(literal("$$$$$a").has_template());
    assert!(!literal("$$${a").has_template());
    assert!(literal("$$${a}").has_template());
    assert!(!literal("$${a}").has_template());
    assert!(literal("a$$ $b").has_template());
    assert!(literal("$-$a").has_template());
}

#[test]
fn lazy_literal_decides_by_its_own_length() {
    let je = LazyLiteral::new("je".to_string(), 2);
    assert_eq!(je.chars(), (2, true, false));
    assert_eq!(je.mimic_case_action("I"), MimicAction::Title);
    assert_eq!(je.mimic_case_action("HI"), MimicAction::Uppercase);
    assert_eq!(je.mimic_case_action("hi"), MimicAction::Nothing);
    assert_eq!(je.handle_mimic_action(MimicAction::Title), "Je");

    let j = LazyLiteral::new("j".to_string(), 1);
    assert_eq!(j.mimic_case_action("I"), MimicAction::Uppercase);
    assert_eq!(j.handle_mimic_action(MimicAction::Uppercase), "J");

    let kept = LazyLiteral::new("Je".to_string(), 2);
    assert_eq!(kept.mimic_case_action("HI"), MimicAction::Nothing);
    assert_eq!(kept.handle_mimic_action(MimicAction::Nothing), "Je");

    assert_eq!(count_cases("Hello, World!"), (8, 2));
    assert_eq!(count_cases(""), (0, 0));
}
