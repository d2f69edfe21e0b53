use sayit::tag_impls::Literal;
use sayit::{Accent, Intensity, Match, Pass, Tag};

/// Increments matched number by given amount. Does nothing for overflow or bad match
struct Increment(u32);

impl Tag for Increment {
    fn generate(&self, m: &Match) -> String {
        let input = m.get_match();

        let input_number: i64 = match input.parse() {
            Ok(parsed) => parsed,
            Err(_) => return input.to_string(),
        };

        match input_number.checked_add(self.0 as i64) {
            Some(added) => added.to_string(),
            None => input.to_string(),
        }
    }
}

#[test]
fn custom_tag_works() {
    let rules: Vec<(String, Box<dyn Tag>)> = vec![
        (r"\d+".to_string(), Box::new(Increment(101))),
        ("x".to_string(), Literal::new_boxed("y")),
    ];
    let accent = Accent::try_from(vec![Intensity::new(
        0,
        vec![("patterns".to_string(), Pass::new(rules).unwrap())],
    )])
    .unwrap();

    assert_eq!(accent.say_it("565 0", 0), "666 101");
    assert_eq!(accent.say_it("x 9223372036854775807", 0), "y 9223372036854775807");
}
