//! The literal tag: a fixed text that may refer to capture groups and that takes
//! on the case of what it replaces.

use vstd::prelude::*;
use vstd::std_specs::iter::IteratorSpec;
use crate::matching::{interpolation, Match, MatchView};
use crate::tag::Tag;
use crate::text::uppercased;
use crate::utils::{
    cased, count_chars_and_cases, profile_of, title_cased, to_title_case, LiteralString,
    MimicAction,
};

verus! {

/// A character that may begin the name of a group after `$`.
pub open spec fn word_char(c: char) -> bool {
    ||| '0' <= c <= '9'
    ||| 'A' <= c <= 'Z'
    ||| 'a' <= c <= 'z'
    ||| c == '_'
}

/// How many `$` stand in a row right before `i`.
pub open spec fn dollars_before(s: Seq<char>, i: int) -> nat
    decreases i,
{
    if i <= 0 || i > s.len() || s[i - 1] != '$' {
        0
    } else {
        1 + dollars_before(s, i - 1)
    }
}

/// Whether the `$` at `i` opens something: it is not the second of a pair `$$`,
/// which stands for a dollar. Of the dollars in a row the first, the third and so
/// on open.
pub open spec fn opens(s: Seq<char>, i: int) -> bool {
    &&& 0 <= i < s.len()
    &&& s[i] == '$'
    &&& dollars_before(s, i) % 2 == 0
}

/// Whether a bare group name starts at `j`: a word character.
pub open spec fn name_follows(s: Seq<char>, j: int) -> bool {
    0 <= j < s.len() && word_char(s[j])
}

/// Whether a braced group name starts at `j`: a `{`, and somewhere behind it a
/// `}`. Anything may stand between them, nothing too.
pub open spec fn braces_follow(s: Seq<char>, j: int) -> bool {
    &&& 0 <= j < s.len()
    &&& s[j] == '{'
    &&& exists|k: int| j < k < s.len() && s[k] == '}'
}

/// Whether a reference to a group starts with the `$` at `i`: the `$` opens, and
/// a name follows it, bare or in braces.
pub open spec fn reference_at(s: Seq<char>, i: int) -> bool {
    opens(s, i) && (name_follows(s, i + 1) || braces_follow(s, i + 1))
}

/// Whether `s` is a template: somewhere in it a reference to a group starts.
/// Every text in which the regex engine's interpolation finds a reference is
/// one.
pub open spec fn template_shaped(s: Seq<char>) -> bool {
    exists|i: int| reference_at(s, i)
}

fn is_word_char(c: char) -> (r: bool)
    ensures
        r == word_char(c),
{
    ('0' <= c && c <= '9') || ('A' <= c && c <= 'Z') || ('a' <= c && c <= 'z') || c == '_'
}

/// The characters of `s`, one by one.
fn chars_of(s: &str) -> (r: Vec<char>)
    ensures
        r@ == s@,
{
    broadcast use vstd::string::next_postcondition, vstd::string::axiom_spec_iter;

    let mut chars = s.chars();
    let mut all: Vec<char> = Vec::new();
    loop
        invariant
            all.len() <= s@.len(),
            chars.remaining() == s@.skip(all.len() as int),
            chars.decrease() is Some,
            all@ == s@.take(all.len() as int),
        decreases chars.decrease()->0,
    {
        match chars.next() {
            Some(c) => {
                proof {
                    assert(s@.take(all.len() as int).push(c) == s@.take(all.len() as int + 1));
                }
                all.push(c);
            },
            None => {
                proof {
                    assert(s@.take(all.len() as int) == s@);
                }
                return all;
            },
        }
    }
}

/// The place behind the last `}` of `s`, 0 where `s` has none.
fn behind_last_brace(s: &Vec<char>) -> (r: usize)
    ensures
        r <= s.len(),
        r > 0 ==> s@[r - 1] == '}',
        forall|k: int| r <= k < s.len() ==> s@[k] != '}',
{
    let mut r: usize = s.len();
    while r > 0 && s[r - 1] != '}'
        invariant
            r <= s.len(),
            forall|k: int| r <= k < s.len() ==> s@[k] != '}',
        decreases r,
    {
        r = r - 1;
    }
    r
}

/// Tells whether `body` is a template.
pub fn detect_template(body: &str) -> (r: bool)
    ensures
        r == template_shaped(body@),
{
    let s = chars_of(body);
    let closed = behind_last_brace(&s);
    let mut even = true;
    let mut i: usize = 0;
    while i < s.len()
        invariant
            i <= s.len(),
            s@ == body@,
            closed <= s.len(),
            closed > 0 ==> s@[closed - 1] == '}',
            forall|k: int| closed <= k < s.len() ==> s@[k] != '}',
            even == (dollars_before(s@, i as int) % 2 == 0),
            forall|x: int| 0 <= x < i ==> !reference_at(s@, x),
        decreases s.len() - i,
    {
        if s[i] == '$' {
            if even && s.len() - i > 1 {
                let next = s[i + 1];
                if is_word_char(next) || (next == '{' && closed > i + 2) {
                    proof {
                        if !word_char(next) {
                            assert(i + 1 < closed - 1 < s.len() && s@[closed - 1] == '}');
                        }
                        assert(reference_at(s@, i as int));
                    }
                    return true;
                }
            }
            even = !even;
        } else {
            even = true;
        }
        i = i + 1;
    }
    false
}

/// A text with everything that case mimicking needs worked out in advance.
#[derive(Debug)]
pub struct PrecomputedLiteral {
    body: String,
    body_upper: String,
    body_title: String,
    has_template: bool,
    char_count: usize,
    has_lowercase: bool,
    has_uppercase: bool,
}

impl View for PrecomputedLiteral {
    type V = Seq<char>;

    closed spec fn view(&self) -> Seq<char> {
        self.body@
    }
}

impl PrecomputedLiteral {
    #[verifier::type_invariant]
    spec fn precomputed(&self) -> bool {
        &&& self.body_upper@ == uppercased(self.body@)
        &&& self.body_title@ == title_cased(self.body@)
        &&& self.has_template == template_shaped(self.body@)
        &&& (self.char_count, self.has_lowercase, self.has_uppercase) == profile_of(self.body@)
    }

    /// Works out the case profile, both case variants and the template flag of
    /// `body`.
    pub fn new(body: String) -> (r: Self)
        ensures
            r@ == body@,
    {
        let (char_count, lowercase, uppercase) = count_chars_and_cases(body.as_str());

        Self {
            char_count,
            has_lowercase: lowercase != 0,
            has_uppercase: uppercase != 0,
            body_upper: body.as_str().to_uppercase(),
            body_title: to_title_case(body.as_str()),
            has_template: detect_template(body.as_str()),
            body,
        }
    }

    /// The text as it was given.
    pub fn body(&self) -> (r: &str)
        ensures
            r@ == self@,
    {
        self.body.as_str()
    }

    /// Whether the text is a template.
    pub fn has_template(&self) -> (r: bool)
        ensures
            r == template_shaped(self@),
    {
        proof {
            use_type_invariant(self);
        }
        self.has_template
    }

    /// The text after `action` has been carried out on it.
    pub fn handle_mimic_action(&self, action: MimicAction) -> (r: &str)
        ensures
            r@ == cased(self@, action),
    {
        proof {
            use_type_invariant(self);
        }
        match action {
            MimicAction::Title => self.body_title.as_str(),
            MimicAction::Uppercase => self.body_upper.as_str(),
            MimicAction::Nothing => self.body.as_str(),
        }
    }
}

impl Clone for PrecomputedLiteral {
    fn clone(&self) -> (r: Self)
        ensures
            r@ == self@,
    {
        proof {
            use_type_invariant(self);
        }
        Self {
            body: self.body.clone(),
            body_upper: self.body_upper.clone(),
            body_title: self.body_title.clone(),
            has_template: self.has_template,
            char_count: self.char_count,
            has_lowercase: self.has_lowercase,
            has_uppercase: self.has_uppercase,
        }
    }
}

impl LiteralString for PrecomputedLiteral {
    open spec fn profile(&self) -> (usize, bool, bool) {
        profile_of(self@)
    }

    fn chars(&self) -> (r: (usize, bool, bool)) {
        proof {
            use_type_invariant(self);
        }
        (self.char_count, self.has_lowercase, self.has_uppercase)
    }
}

/// Static text.
///
/// A text that is a template has its group references replaced by what
/// the groups matched; the outcome then takes on the case of the match. Any other
/// text takes on the case of the match as it stands.
#[derive(Debug)]
pub struct Literal(PrecomputedLiteral);

impl View for Literal {
    type V = Seq<char>;

    closed spec fn view(&self) -> Seq<char> {
        self.0@
    }
}

impl Literal {
    pub fn new(s: String) -> (r: Self)
        ensures
            r@ == s@,
    {
        Self(PrecomputedLiteral::new(s))
    }

    pub fn new_boxed(s: &str) -> (r: Box<Self>)
        ensures
            r@ == s@,
    {
        Box::new(Self::new(s.to_owned()))
    }
}

impl Clone for Literal {
    fn clone(&self) -> (r: Self)
        ensures
            r@ == self@,
    {
        Self(self.0.clone())
    }
}

/// The replacement that the literal text `body` stands for at the match `m`: the
/// body, with what the groups matched in it where it is a template, in the case
/// of the match.
pub open spec fn literal_text(body: Seq<char>, m: MatchView) -> Seq<char> {
    if template_shaped(body) {
        m.mimicked(interpolation(m.captures, m.input, body))
    } else {
        m.mimicked(body)
    }
}

impl Tag for Literal {
    open spec fn produces(&self, m: MatchView, out: Seq<char>) -> bool {
        out == literal_text(self@, m)
    }

    fn generate(&self, m: &Match) -> (r: String) {
        if self.0.has_template() {
            let interpolated = m.interpolate(self.0.body());

            m.mimic_case(interpolated)
        } else {
            let action = self.0.mimic_case_action(m.get_match());

            self.0.handle_mimic_action(action).to_owned()
        }
    }
}

} // verus!
