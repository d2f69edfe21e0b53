//! One match of a pass: the capture groups that the regex engine found, the text
//! they were found in, and the place of the whole match in it.

use vstd::prelude::*;
use vstd::string::StringSliceAdditionalSpecFns;
use vstd::utf8::{decode_utf8, encode_utf8, is_char_boundary, valid_utf8};
use regex_automata::util::captures::Captures;
use crate::utils::{
    cased, count_chars_and_cases, lowercase_count, mimic_action, profile_of, to_title_case,
    uppercase_count, LiteralString, MimicAction,
};

verus! {

/// The capture groups of one search, as the regex engine keeps them.
#[verifier::external_type_specification]
#[verifier::external_body]
pub struct ExCaptures(Captures);

/// What a `Captures` holds: for each group of the pattern that matched, the byte
/// span that the group took part with, if it took part. Empty without a match.
pub uninterp spec fn groups(c: Captures) -> Seq<Option<(int, int)>>;

/// The index of the pattern that matched, if one did.
pub uninterp spec fn matched_pattern(c: Captures) -> Option<int>;

/// The text that the regex engine's interpolation makes of `template`, with the
/// groups of `c` read from `input`.
pub uninterp spec fn interpolation(c: Captures, input: Seq<char>, template: Seq<char>) -> Seq<
    char,
>;

/// `Captures::group_len`: the number of groups of the pattern that matched, zero
/// without a match.
#[verifier::external_body]
fn group_len(c: &Captures) -> (r: usize)
    ensures
        r == groups(*c).len(),
{
    c.group_len()
}

/// `Captures::get_group`: the span of the group with this index, `None` for an
/// index that the matching pattern does not have and for a group that took no
/// part in the match.
#[verifier::external_body]
fn group(c: &Captures, index: usize) -> (r: Option<(usize, usize)>)
    ensures
        match r {
            Some(span) => index < groups(*c).len() && groups(*c)[index as int] == Some(
                (span.0 as int, span.1 as int),
            ),
            None => index >= groups(*c).len() || groups(*c)[index as int] is None,
        },
{
    match c.get_group(index) {
        Some(span) => Some((span.start, span.end)),
        None => None,
    }
}

/// `Captures::pattern`: the identifier of the pattern that matched, as a number.
#[verifier::external_body]
fn pattern(c: &Captures) -> (r: Option<usize>)
    ensures
        match r {
            Some(index) => matched_pattern(*c) == Some(index as int),
            None => matched_pattern(*c) is None,
        },
{
    match c.pattern() {
        Some(id) => Some(id.as_usize()),
        None => None,
    }
}

/// `Captures::interpolate_string`: the template with its group references
/// replaced, named [`interpolation`]. It slices `input` by the span of every group
/// that the template names, so every span must fit `input`.
#[verifier::external_body]
fn interpolate_groups(c: &Captures, input: &str, template: &str) -> (r: String)
    requires
        groups_fit(groups(*c), input@),
    ensures
        r@ == interpolation(*c, input@, template@),
{
    c.interpolate_string(input, template)
}

/// Whether the bytes from `start` to `end` are a part of `text` that begins and
/// ends between characters.
pub open spec fn span_fits(text: Seq<char>, start: int, end: int) -> bool {
    let bytes = encode_utf8(text);
    &&& 0 <= start <= end <= bytes.len()
    &&& is_char_boundary(bytes, start)
    &&& is_char_boundary(bytes, end)
}

/// Whether every span among `spans` fits `text`.
pub open spec fn groups_fit(spans: Seq<Option<(int, int)>>, text: Seq<char>) -> bool {
    forall|i: int|
        0 <= i < spans.len() ==> match #[trigger] spans[i] {
            Some(span) => span_fits(text, span.0, span.1),
            None => true,
        }
}

/// The part of `text` that the bytes from `start` to `end` encode.
pub open spec fn slice_of(text: Seq<char>, start: int, end: int) -> Seq<char> {
    decode_utf8(encode_utf8(text).subrange(start, end))
}

/// A boundary of the whole stays one in a prefix that ends on a boundary.
pub proof fn lemma_boundary_in_prefix(bytes: Seq<u8>, start: int, end: int)
    requires
        valid_utf8(bytes),
        0 <= start <= end <= bytes.len(),
        is_char_boundary(bytes, start),
        is_char_boundary(bytes, end),
    ensures
        valid_utf8(bytes.subrange(0, end)),
        is_char_boundary(bytes.subrange(0, end), start),
{
    let prefix = bytes.subrange(0, end);
    vstd::utf8::valid_utf8_split(bytes, end);
    if start == end {
        vstd::utf8::is_char_boundary_start_end_of_seq(prefix);
    } else {
        vstd::utf8::is_char_boundary_iff_not_is_continuation_byte(bytes, start);
        vstd::utf8::is_char_boundary_iff_not_is_continuation_byte(prefix, start);
    }
}

/// Whether the span fits `input`.
pub fn fits(input: &str, start: usize, end: usize) -> (r: bool)
    ensures
        r == span_fits(input@, start as int, end as int),
{
    let byte_len = input.as_bytes().len();
    start <= end && end <= byte_len && input.is_char_boundary(start) && input.is_char_boundary(
        end,
    )
}

/// The part of `input` from byte `start` to byte `end`.
pub fn slice<'a>(input: &'a str, start: usize, end: usize) -> (r: &'a str)
    requires
        span_fits(input@, start as int, end as int),
    ensures
        r@ == slice_of(input@, start as int, end as int),
{
    proof {
        vstd::utf8::encode_utf8_valid_utf8(input@);
        lemma_boundary_in_prefix(input.spec_bytes(), start as int, end as int);
    }
    let (head, _) = input.split_at(end);
    let (_, part) = head.split_at(start);
    proof {
        let bytes = input.spec_bytes();
        assert(part.spec_bytes() == bytes.subrange(start as int, end as int)) by {
            assert(bytes.subrange(0, end as int).subrange(start as int, end as int)
                =~= bytes.subrange(start as int, end as int));
        }
        vstd::utf8::encode_utf8_decode_utf8(part@);
    }
    part
}

/// Counts the lowercase and the uppercase letters of `string`.
pub fn count_cases(string: &str) -> (r: (usize, usize))
    ensures
        r.0 == lowercase_count(string@),
        r.1 == uppercase_count(string@),
{
    let (_, lower, upper) = count_chars_and_cases(string);
    (lower, upper)
}

/// A replacement that was put together for one match, with its length in
/// characters, which counts when its case is decided.
pub struct LazyLiteral {
    body: String,
    length_hint: usize,
}

impl View for LazyLiteral {
    type V = Seq<char>;

    closed spec fn view(&self) -> Seq<char> {
        self.body@
    }
}

impl LazyLiteral {
    #[verifier::type_invariant]
    spec fn counted(&self) -> bool {
        self.length_hint == self.body@.len()
    }

    /// Takes the body and the number of its characters, which whoever made the
    /// body has at hand.
    pub fn new(body: String, length_hint: usize) -> (r: Self)
        requires
            length_hint == body@.len(),
        ensures
            r@ == body@,
    {
        Self { body, length_hint }
    }

    /// Carries out `action` on the body.
    pub fn handle_mimic_action(self, action: MimicAction) -> (r: String)
        ensures
            r@ == cased(self@, action),
    {
        match action {
            MimicAction::Title => to_title_case(self.body.as_str()),
            MimicAction::Uppercase => self.body.as_str().to_uppercase(),
            MimicAction::Nothing => self.body,
        }
    }
}

impl LiteralString for LazyLiteral {
    open spec fn profile(&self) -> (usize, bool, bool) {
        profile_of(self@)
    }

    fn chars(&self) -> (r: (usize, bool, bool)) {
        proof {
            use_type_invariant(self);
        }
        let (lowercase, uppercase) = count_cases(self.body.as_str());

        (self.length_hint, lowercase != 0, uppercase != 0)
    }
}

/// What a match is to the contracts: the groups, the text searched, the index of
/// the pattern that matched and the byte span of the whole match.
pub struct MatchView {
    pub captures: Captures,
    pub input: Seq<char>,
    pub pattern: int,
    pub start: int,
    pub end: int,
}

impl MatchView {
    /// The groups belong to a match of the pattern, the first of them is the whole
    /// match, and every span fits the text.
    pub open spec fn wf(self) -> bool {
        &&& well_matched(self.captures, self.input)
        &&& matched_pattern(self.captures) == Some(self.pattern)
        &&& groups(self.captures)[0] == Some((self.start, self.end))
    }

    /// The text of the whole match.
    pub open spec fn matched(self) -> Seq<char> {
        slice_of(self.input, self.start, self.end)
    }

    /// `template` with the case of the match: what its own case profile and the
    /// text of the match ask for is done to it.
    pub open spec fn mimicked(self, template: Seq<char>) -> Seq<char> {
        cased(template, mimic_action(profile_of(template), self.matched()))
    }
}

/// Whether `c` holds a match whose spans all fit `input`.
pub open spec fn well_matched(c: Captures, input: Seq<char>) -> bool {
    &&& matched_pattern(c) is Some
    &&& groups(c).len() > 0
    &&& groups(c)[0] is Some
    &&& groups_fit(groups(c), input)
}

/// The capture groups of one match together with the whole text that was
/// searched.
pub struct Match<'a> {
    captures: Captures,
    input: &'a str,
    pattern: usize,
    start: usize,
    end: usize,
}

impl<'a> View for Match<'a> {
    type V = MatchView;

    closed spec fn view(&self) -> MatchView {
        MatchView {
            captures: self.captures,
            input: self.input@,
            pattern: self.pattern as int,
            start: self.start as int,
            end: self.end as int,
        }
    }
}

impl<'a> Match<'a> {
    #[verifier::type_invariant]
    pub(crate) open spec fn sound(&self) -> bool {
        self.wf()
    }

    /// Whether the match is one that [`Match::new`] hands out, as every match is.
    pub open spec fn wf(&self) -> bool {
        self@.wf()
    }

    /// Puts groups and text together, if the groups are a match whose spans all
    /// fit the text.
    pub fn new(captures: Captures, input: &'a str) -> (r: Option<Self>)
        ensures
            r is Some <==> well_matched(captures, input@),
            r matches Some(m) ==> m.wf() && m@.captures == captures && m@.input == input@,
    {
        let Some(index) = pattern(&captures) else {
            return None;
        };
        let Some(whole) = group(&captures, 0) else {
            return None;
        };
        let count = group_len(&captures);
        let mut i: usize = 0;
        while i < count
            invariant
                i <= count == groups(captures).len(),
                forall|j: int|
                    0 <= j < i ==> match #[trigger] groups(captures)[j] {
                        Some(span) => span_fits(input@, span.0, span.1),
                        None => true,
                    },
            decreases count - i,
        {
            if let Some(span) = group(&captures, i) {
                if !fits(input, span.0, span.1) {
                    return None;
                }
            }
            i = i + 1;
        }
        Some(Self { captures, input, pattern: index, start: whole.0, end: whole.1 })
    }

    /// The byte range of the whole match.
    pub fn get_range(&self) -> (r: std::ops::Range<usize>)
        ensures
            r.start == self@.start,
            r.end == self@.end,
    {
        self.start..self.end
    }

    /// The index of the pattern that matched.
    pub fn get_pattern(&self) -> (r: usize)
        ensures
            r == self@.pattern,
    {
        self.pattern
    }

    /// The text of the whole match.
    pub fn get_match(&self) -> (r: &'a str)
        ensures
            r@ == self@.matched(),
    {
        proof {
            use_type_invariant(self);
        }
        slice(self.input, self.start, self.end)
    }

    /// The groups.
    pub fn get_captures(&self) -> (r: &Captures)
        ensures
            *r == self@.captures,
    {
        &self.captures
    }

    /// The whole text that was searched.
    pub fn get_input(&self) -> (r: &'a str)
        ensures
            r@ == self@.input,
    {
        self.input
    }

    /// Replaces the group references in `template` by what the groups matched.
    pub fn interpolate(&self, template: &str) -> (r: String)
        ensures
            r@ == interpolation(self@.captures, self@.input, template@),
    {
        proof {
            use_type_invariant(self);
        }
        interpolate_groups(&self.captures, self.input, template)
    }

    /// Gives `template` the case of the match.
    pub fn mimic_case(&self, template: String) -> (r: String)
        ensures
            r@ == self@.mimicked(template@),
    {
        proof {
            use_type_invariant(self);
        }
        let (char_count, _, _) = count_chars_and_cases(template.as_str());
        let literal = LazyLiteral::new(template, char_count);
        let action = literal.mimic_case_action(self.get_match());

        literal.handle_mimic_action(action)
    }
}

} // verus!
