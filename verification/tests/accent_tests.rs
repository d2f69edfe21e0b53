use sayit::accent::CreationError;
use sayit::tag_impls::Literal;
use sayit::{Accent, Intensity, Pass, Tag};

fn literal_pass(rules: &[(&str, &str)]) -> Pass {
    let mut list: Vec<(String, Box<dyn Tag>)> = Vec::new();
    for (pattern, body) in rules {
        list.push((pattern.to_string(), Literal::new_boxed(body)));
    }
    Pass::new(list).unwrap()
}

fn level(number: u64, body: &str) -> Intensity {
    Intensity::new(
        number,
        vec![("".to_string(), literal_pass(&[("intensity", body)]))],
    )
}

#[test]
fn e() {
    let base_intensity = Intensity::new(
        0,
        vec![(
            "".to_owned(),
            Pass::new(vec![
                ("(?-i)[a-z]".to_string(), Literal::new_boxed("e")),
                ("[A-Z]".to_string(), Literal::new_boxed("E")),
            ])
            .unwrap(),
        )],
    );
    let e = Accent::try_from(vec![base_intensity]).unwrap();

    assert_eq!(e.say_it("Hello World!", 0), "Eeeee Eeeee!");
}

#[test]
fn construction_error_empty_intensities() {
    assert_eq!(
        Accent::try_from(Vec::new()).err().unwrap(),
        CreationError::IntensityZeroMissing
    );
}

#[test]
fn construction_error_first_must_be_0() {
    let intensities = vec![Intensity::new(12, Vec::new())];

    assert_eq!(
        Accent::try_from(intensities).err().unwrap(),
        CreationError::FirstIntensityNotZero
    );
}

#[test]
fn construction_error_out_of_order() {
    let intensities = vec![
        Intensity::new(0, Vec::new()),
        Intensity::new(3, Vec::new()),
        Intensity::new(1, Vec::new()),
    ];

    assert_eq!(
        Accent::try_from(intensities).err().unwrap(),
        CreationError::UnsortedOrDuplicatedIntensities(1)
    );
}

#[test]
fn construction_error_duplicated() {
    let intensities = vec![
        Intensity::new(0, Vec::new()),
        Intensity::new(2, Vec::new()),
        Intensity::new(2, Vec::new()),
        Intensity::new(1, Vec::new()),
    ];

    assert_eq!(
        Accent::try_from(intensities).err().unwrap(),
        CreationError::UnsortedOrDuplicatedIntensities(2)
    );

    let intensities = vec![Intensity::new(0, Vec::new()), Intensity::new(0, Vec::new())];

    assert_eq!(
        Accent::try_from(intensities).err().unwrap(),
        CreationError::UnsortedOrDuplicatedIntensities(0)
    );
}

#[test]
fn construction_error_messages() {
    assert_eq!(
        CreationError::IntensityZeroMissing.message(),
        "expected at least a base intensity 0"
    );
    assert_eq!(
        CreationError::FirstIntensityNotZero.message(),
        "first intensity must have level 0"
    );
    assert_eq!(
        CreationError::UnsortedOrDuplicatedIntensities(9001).message(),
        "duplicated or out of order intensity level 9001"
    );
    assert_eq!(
        CreationError::UnsortedOrDuplicatedIntensities(0).message(),
        "duplicated or out of order intensity level 0"
    );
    assert_eq!(
        CreationError::UnsortedOrDuplicatedIntensities(u64::MAX).message(),
        "duplicated or out of order intensity level 18446744073709551615"
    );
}

#[test]
fn selection_takes_the_greatest_level_within_the_request() {
    let accent = Accent::try_from(vec![level(0, "0"), level(1, "1"), level(5, "5")]).unwrap();

    assert_eq!(accent.say_it("intensity", 0), "0");
    assert_eq!(accent.say_it("intensity", 1), "1");
    assert_eq!(accent.say_it("intensity", 4), "1");
    assert_eq!(accent.say_it("intensity", 5), "5");
    assert_eq!(accent.say_it("intensity", 9000 + 1), "5");
}

#[test]
fn selection_never_falls_when_the_request_rises() {
    let accent = Accent::try_from(vec![
        level(0, "0"),
        level(3, "3"),
        level(4, "4"),
        level(10, "10"),
    ])
    .unwrap();
    let levels = accent.intensities();

    let mut previous = 0;
    for request in 0..=12u64 {
        let said: u64 = accent.say_it("intensity", request).parse().unwrap();
        let greatest = *levels.iter().filter(|l| **l <= request).max().unwrap();

        assert_eq!(said, greatest);
        assert!(said >= previous);
        previous = said;
    }
    assert_eq!(accent.say_it("intensity", u64::MAX), "10");
}

#[test]
fn intensities_are_listed_in_ascending_order() {
    let accent = Accent::try_from(vec![level(0, "0"), level(1, "1"), level(5, "5")]).unwrap();

    assert_eq!(accent.intensities(), vec![0, 1, 5]);

    let accent = Accent::try_from(vec![level(0, "0")]).unwrap();

    assert_eq!(accent.intensities(), vec![0]);
}

#[test]
fn unmatched_text_is_kept() {
    let accent = Accent::try_from(vec![level(0, "0"), level(2, "2")]).unwrap();

    for request in 0..4 {
        assert_eq!(accent.say_it("", request), "");
        assert_eq!(accent.say_it("nothing here", request), "nothing here");
        assert_eq!(accent.say_it("ничего\nтут", request), "ничего\nтут");
    }
}

#[test]
fn levels_built_by_extending_and_replacing() {
    let base = Intensity::new(
        0,
        vec![("words".to_string(), literal_pass(&[("hello", "hi"), ("bye", "cya")]))],
    );
    let louder = base
        .extend(
            1,
            vec![
                ("words".to_string(), literal_pass(&[("hello", "yo")])),
                ("ending".to_string(), literal_pass(&[("$", "!")])),
            ],
        )
        .unwrap();
    let other = louder.replace(7, vec![("all".to_string(), literal_pass(&[(r"\w+", "meow")]))]);
    let accent = Accent::try_from(vec![base, louder, other]).unwrap();

    assert_eq!(accent.say_it("hello and bye", 0), "hi and cya");
    assert_eq!(accent.say_it("hello and bye", 1), "yo and cya!");
    assert_eq!(accent.say_it("hello and bye", 6), "yo and cya!");
    assert_eq!(accent.say_it("Hello and bye", 7), "Meow meow meow");
}

#[test]
fn levels_convert_into_an_accent() {
    let made: Result<Accent, CreationError> = vec![level(0, "0"), level(2, "2")].try_into();
    let accent = made.unwrap();

    assert_eq!(accent.intensities(), vec![0, 2]);
    assert_eq!(accent.say_it("intensity", 3), "2");

    let refused: Result<Accent, CreationError> = vec![level(1, "1")].try_into();

    assert_eq!(refused.err().unwrap(), CreationError::FirstIntensityNotZero);
}
