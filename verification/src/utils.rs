//! Case profiles of texts, the case-mimicking decision, and the one-slot format
//! strings that pass definitions use.

use vstd::prelude::*;
use vstd::std_specs::iter::IteratorSpec;
use crate::text::{
    char_uppercased, lemma_chars_fit_in_bytes, lowercase_letter, upper_of_char, uppercase_letter,
    uppercased,
};

verus! {

/// How many characters of `s` are lowercase letters.
pub open spec fn lowercase_count(s: Seq<char>) -> nat
    decreases s.len(),
{
    if s.len() == 0 {
        0
    } else {
        lowercase_count(s.drop_last()) + if lowercase_letter(s.last()) {
            1nat
        } else {
            0nat
        }
    }
}

/// How many characters of `s` are uppercase letters.
pub open spec fn uppercase_count(s: Seq<char>) -> nat
    decreases s.len(),
{
    if s.len() == 0 {
        0
    } else {
        uppercase_count(s.drop_last()) + if uppercase_letter(s.last()) {
            1nat
        } else {
            0nat
        }
    }
}

/// `s` with its first character replaced by that character's uppercase mapping.
pub open spec fn title_cased(s: Seq<char>) -> Seq<char> {
    if s.len() == 0 {
        s
    } else {
        char_uppercased(s[0]) + s.skip(1)
    }
}

/// Neither count exceeds the number of characters.
pub proof fn lemma_case_counts_bounded(s: Seq<char>)
    ensures
        lowercase_count(s) <= s.len(),
        uppercase_count(s) <= s.len(),
    decreases s.len(),
{
    if s.len() > 0 {
        lemma_case_counts_bounded(s.drop_last());
    }
}

/// Uppercases the first character of `s` and keeps the rest.
pub fn to_title_case(s: &str) -> (r: String)
    ensures
        r@ == title_cased(s@),
{
    broadcast use vstd::string::next_postcondition, vstd::string::axiom_spec_iter;

    let mut rest = s.chars();
    match rest.next() {
        None => String::new(),
        Some(first) => {
            let mut titled = upper_of_char(first);
            let ghost mut done: int = 1;
            loop
                invariant
                    1 <= done <= s@.len(),
                    rest.remaining() == s@.skip(done),
                    rest.decrease() is Some,
                    titled@ == char_uppercased(s@[0]) + s@.subrange(1, done),
                decreases rest.decrease()->0,
            {
                match rest.next() {
                    Some(c) => {
                        titled.push(c);
                        proof {
                            assert(s@.subrange(1, done).push(c) == s@.subrange(1, done + 1));
                            done = done + 1;
                        }
                    },
                    None => {
                        proof {
                            assert(s@.subrange(1, done) == s@.skip(1));
                        }
                        return titled;
                    },
                }
            }
        },
    }
}

/// Counts the characters of `string`, its lowercase letters and its uppercase
/// letters, in that order.
pub fn count_chars_and_cases(string: &str) -> (r: (usize, usize, usize))
    ensures
        r.0 == string@.len(),
        r.1 == lowercase_count(string@),
        r.2 == uppercase_count(string@),
{
    broadcast use vstd::string::next_postcondition, vstd::string::axiom_spec_iter;

    // The byte slice bounds the character count, so the counters cannot overflow.
    let byte_len = string.as_bytes().len();
    proof {
        lemma_chars_fit_in_bytes(string@);
    }
    let mut chars = string.chars();
    let mut total: usize = 0;
    let mut lower: usize = 0;
    let mut upper: usize = 0;
    loop
        invariant
            string@.len() <= byte_len,
            total <= string@.len(),
            chars.remaining() == string@.skip(total as int),
            chars.decrease() is Some,
            lower == lowercase_count(string@.take(total as int)),
            upper == uppercase_count(string@.take(total as int)),
        decreases chars.decrease()->0,
    {
        match chars.next() {
            Some(c) => {
                proof {
                    let seen = string@.take(total as int + 1);
                    assert(seen.drop_last() == string@.take(total as int));
                    assert(seen.last() == c);
                    lemma_case_counts_bounded(seen);
                }
                if c.is_lowercase() {
                    lower = lower + 1;
                }
                if c.is_uppercase() {
                    upper = upper + 1;
                }
                total = total + 1;
            },
            None => {
                proof {
                    assert(string@.take(total as int) == string@);
                }
                return (total, lower, upper);
            },
        }
    }
}

/// The case profile of a text: its length in characters, whether it has a
/// lowercase letter, whether it has an uppercase letter.
pub open spec fn profile_of(s: Seq<char>) -> (usize, bool, bool) {
    (s.len() as usize, lowercase_count(s) != 0, uppercase_count(s) != 0)
}

/// What to do to a replacement so that its case resembles the text it replaces.
#[derive(Debug, PartialEq, Eq, Structural, Clone, Copy)]
pub enum MimicAction {
    /// Uppercase the first character.
    Title,
    /// Uppercase everything.
    Uppercase,
    /// Leave the replacement as written.
    Nothing,
}

/// The action for a replacement with profile `own` -- its character count, whether
/// it has a lowercase letter and whether it has an uppercase letter -- standing in
/// for the text `from`.
///
/// A replacement that has an uppercase letter, or no lowercase one, is never
/// touched. Otherwise an all-uppercase source asks for uppercase, unless the
/// source is a single character and the replacement is not; a source whose only
/// uppercase letter comes first, or which is that one letter, asks for a title;
/// any other source asks for nothing.
pub open spec fn mimic_action(own: (usize, bool, bool), from: Seq<char>) -> MimicAction {
    if own.2 || !own.1 {
        MimicAction::Nothing
    } else if lowercase_count(from) == 0 && uppercase_count(from) != 0 && (own.0 == 1
        || from.len() > 1) {
        MimicAction::Uppercase
    } else if uppercase_count(from) == 1 && (from.len() == 1 || uppercase_letter(from[0])) {
        MimicAction::Title
    } else {
        MimicAction::Nothing
    }
}

/// Whether `s` starts with an uppercase letter.
fn starts_uppercase(s: &str) -> (r: bool)
    ensures
        r == (s@.len() > 0 && uppercase_letter(s@[0])),
{
    broadcast use vstd::string::next_postcondition, vstd::string::axiom_spec_iter;

    let mut chars = s.chars();
    match chars.next() {
        Some(first) => first.is_uppercase(),
        None => false,
    }
}

/// `body` after `action` has been carried out on it.
pub open spec fn cased(body: Seq<char>, action: MimicAction) -> Seq<char> {
    match action {
        MimicAction::Title => title_cased(body),
        MimicAction::Uppercase => uppercased(body),
        MimicAction::Nothing => body,
    }
}

/// A string that knows its own case profile and can say how to mimic another's.
pub trait LiteralString {
    /// The profile: character count, has a lowercase letter, has an uppercase
    /// letter.
    spec fn profile(&self) -> (usize, bool, bool);

    /// Returns the profile.
    fn chars(&self) -> (r: (usize, bool, bool))
        ensures
            r == self.profile(),
    ;

    /// Examines `from` and tells which action makes this string match its case.
    fn mimic_case_action(&self, from: &str) -> (r: MimicAction)
        ensures
            r == mimic_action(self.profile(), from@),
    {
        let (self_char_count, self_has_lowercase, self_has_uppercase) = self.chars();

        if self_has_uppercase || !self_has_lowercase {
            return MimicAction::Nothing;
        }
        let (char_count, lowercase, uppercase) = count_chars_and_cases(from);

        if (lowercase == 0 && uppercase != 0) && (self_char_count == 1 || char_count > 1) {
            return MimicAction::Uppercase;
        }
        if uppercase == 1 && (char_count == 1 || starts_uppercase(from)) {
            return MimicAction::Title;
        }
        MimicAction::Nothing
    }
}

/// The decimal digit for `d`.
pub open spec fn digit_char(d: nat) -> char
    recommends
        d < 10,
{
    if d == 0 {
        '0'
    } else if d == 1 {
        '1'
    } else if d == 2 {
        '2'
    } else if d == 3 {
        '3'
    } else if d == 4 {
        '4'
    } else if d == 5 {
        '5'
    } else if d == 6 {
        '6'
    } else if d == 7 {
        '7'
    } else if d == 8 {
        '8'
    } else {
        '9'
    }
}

/// `n` written in decimal, without leading zeros.
pub open spec fn decimal(n: nat) -> Seq<char>
    decreases n,
{
    if n < 10 {
        seq![digit_char(n)]
    } else {
        decimal(n / 10).push(digit_char(n % 10))
    }
}

fn digit(d: usize) -> (r: char)
    requires
        d < 10,
    ensures
        r == digit_char(d as nat),
{
    if d == 0 {
        '0'
    } else if d == 1 {
        '1'
    } else if d == 2 {
        '2'
    } else if d == 3 {
        '3'
    } else if d == 4 {
        '4'
    } else if d == 5 {
        '5'
    } else if d == 6 {
        '6'
    } else if d == 7 {
        '7'
    } else if d == 8 {
        '8'
    } else {
        '9'
    }
}

/// `n` in decimal.
pub fn decimal_text_u64(n: u64) -> (r: String)
    ensures
        r@ == decimal(n as nat),
    decreases n,
{
    if n < 10 {
        let mut text = String::new();
        text.push(digit(n as usize));
        proof {
            assert(text@ == seq![digit_char(n as nat)]);
        }
        text
    } else {
        let mut text = decimal_text_u64(n / 10);
        text.push(digit((n % 10) as usize));
        text
    }
}

fn decimal_text(n: usize) -> (r: String)
    ensures
        r@ == decimal(n as nat),
    decreases n,
{
    if n < 10 {
        let mut text = String::new();
        text.push(digit(n));
        proof {
            assert(text@ == seq![digit_char(n as nat)]);
        }
        text
    } else {
        let mut text = decimal_text(n / 10);
        text.push(digit(n % 10));
        text
    }
}

/// Where the scan of a format string stands: the text written so far, whether the
/// slot has been filled, and a brace that still waits for its partner.
pub struct FormatState {
    pub out: Seq<char>,
    pub filled: bool,
    pub pending: Option<char>,
}

/// What one character does to a [`FormatState`].
pub enum FormatStep {
    /// The scan goes on from this state.
    Next(FormatState),
    /// The scan stops: this brace had no partner.
    Unmatched(char),
}

/// One step of the scan, on the character `c`.
///
/// A doubled brace writes one brace. `{}` writes `value`, once: a second `{}`
/// stops the scan. A single brace before any other character stops it too. A `{`
/// after a single `}` takes its place as the waiting brace.
pub open spec fn format_step(st: FormatState, c: char, value: Seq<char>) -> FormatStep {
    if c == '{' {
        if st.pending == Some('{') {
            FormatStep::Next(FormatState { out: st.out.push('{'), pending: None, ..st })
        } else {
            FormatStep::Next(FormatState { pending: Some('{'), ..st })
        }
    } else if c == '}' {
        match st.pending {
            Some(p) => if p == '{' {
                if st.filled {
                    FormatStep::Unmatched('{')
                } else {
                    FormatStep::Next(
                        FormatState { out: st.out + value, filled: true, pending: None },
                    )
                }
            } else {
                FormatStep::Next(FormatState { out: st.out.push('}'), pending: None, ..st })
            },
            None => FormatStep::Next(FormatState { pending: Some('}'), ..st }),
        }
    } else {
        match st.pending {
            Some(p) => FormatStep::Unmatched(p),
            None => FormatStep::Next(FormatState { out: st.out.push(c), ..st }),
        }
    }
}

/// The state after the whole of `template`, or the brace that stopped the scan
/// and the position of the character at which it stopped.
pub open spec fn format_scan(template: Seq<char>, value: Seq<char>) -> Result<
    FormatState,
    (char, nat),
>
    decreases template.len(),
{
    if template.len() == 0 {
        Ok(FormatState { out: Seq::empty(), filled: false, pending: None })
    } else {
        match format_scan(template.drop_last(), value) {
            Err(stop) => Err(stop),
            Ok(st) => match format_step(st, template.last(), value) {
                FormatStep::Next(next) => Ok(next),
                FormatStep::Unmatched(brace) => Err((brace, (template.len() - 1) as nat)),
            },
        }
    }
}

/// The message for a brace without a partner.
pub open spec fn unmatched_message(brace: char, position: nat) -> Seq<char> {
    "unmatched '"@ + seq![brace] + "' at position "@ + decimal(position)
}

/// What formatting `template` with `value` gives: the text, or the message that
/// says why there is none. A template without `{}` is refused; a brace that
/// still waits at the end of the template is dropped.
pub open spec fn formatted(template: Seq<char>, value: Seq<char>) -> Result<
    Seq<char>,
    Seq<char>,
> {
    match format_scan(template, value) {
        Err(stop) => Err(unmatched_message(stop.0, stop.1)),
        Ok(st) => if st.filled {
            Ok(st.out)
        } else {
            Err("string did not contain {} template"@)
        },
    }
}

/// The view of a result whose two sides are strings.
pub open spec fn result_view(r: Result<String, String>) -> Result<Seq<char>, Seq<char>> {
    match r {
        Ok(text) => Ok(text@),
        Err(message) => Err(message@),
    }
}

fn unmatched(brace: char, position: usize) -> (r: String)
    ensures
        r@ == unmatched_message(brace, position as nat),
{
    let mut message = "unmatched '".to_owned();
    message.push(brace);
    message.append("' at position ");
    let number = decimal_text(position);
    message.append(number.as_str());
    message
}

/// Replaces the single required `{}` of `template` by `value`. Braces are escaped
/// by doubling: `{{` and `}}`.
pub fn runtime_format_single_value(template: &str, value: &str) -> (r: Result<String, String>)
    ensures
        result_view(r) == formatted(template@, value@),
{
    broadcast use vstd::string::next_postcondition, vstd::string::axiom_spec_iter;

    let byte_len = template.as_bytes().len();
    proof {
        lemma_chars_fit_in_bytes(template@);
    }
    let mut result = String::new();
    let mut filled = false;
    let mut previous: Option<char> = None;
    let mut chars = template.chars();
    let mut i: usize = 0;
    loop
        invariant
            template@.len() <= byte_len,
            i <= template@.len(),
            chars.remaining() == template@.skip(i as int),
            chars.decrease() is Some,
            format_scan(template@.take(i as int), value@) == Ok::<FormatState, (char, nat)>(
                FormatState { out: result@, filled, pending: previous },
            ),
        decreases chars.decrease()->0,
    {
        let ghost before = FormatState { out: result@, filled, pending: previous };
        match chars.next() {
            None => {
                proof {
                    assert(template@.take(i as int) == template@);
                }
                if !filled {
                    return Err("string did not contain {} template".to_owned());
                }
                return Ok(result);
            },
            Some(c) => {
                proof {
                    let seen = template@.take(i as int + 1);
                    assert(seen.drop_last() == template@.take(i as int));
                    assert(seen.last() == c);
                }
                if c == '{' {
                    if previous == Some('{') {
                        result.push('{');
                        previous = None;
                    } else {
                        previous = Some('{');
                    }
                } else if c == '}' {
                    match previous {
                        Some(p) => {
                            if p == '{' {
                                if filled {
                                    proof {
                                        lemma_scan_stops(template@, value@, i as int + 1);
                                    }
                                    return Err(unmatched('{', i));
                                }
                                result.append(value);
                                filled = true;
                                previous = None;
                            } else {
                                result.push('}');
                                previous = None;
                            }
                        },
                        None => {
                            previous = Some('}');
                        },
                    }
                } else {
                    match previous {
                        Some(p) => {
                            proof {
                                lemma_scan_stops(template@, value@, i as int + 1);
                            }
                            return Err(unmatched(p, i));
                        },
                        None => {
                            result.push(c);
                        },
                    }
                }
                i = i + 1;
            },
        }
    }
}

/// Once the scan has stopped on a prefix, it has stopped on the whole template, at
/// the same place.
pub proof fn lemma_scan_stops(template: Seq<char>, value: Seq<char>, n: int)
    requires
        0 <= n <= template.len(),
        format_scan(template.take(n), value) is Err,
    ensures
        format_scan(template, value) == format_scan(template.take(n), value),
    decreases template.len() - n,
{
    if n < template.len() {
        let longer = template.take(n + 1);
        assert(longer.drop_last() == template.take(n));
        lemma_scan_stops(template, value, n + 1);
    } else {
        assert(template.take(n) == template);
    }
}

} // verus!
