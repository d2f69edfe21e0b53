//! Accents as they are written down: passes with a format for their patterns, and
//! levels that replace or extend the level before them. What is checked here is
//! what no parser of a notation checks: that keys are not repeated, that levels
//! are numbered as they must be, and that everything compiles.

use std::sync::Arc;
use vstd::prelude::*;
use crate::accent::{numbers, rising, Accent};
use crate::intensity::{entries_of, extended, Entries, Intensity, IntensityView};
use crate::merge::keys_of;
use crate::pass::{self, compiles, refusal, Pass, SharedTag};
use crate::tag::Tag;
use crate::utils::{decimal, decimal_text_u64, formatted, runtime_format_single_value};

verus! {

/// Why a written accent could not be made into an accent.
#[derive(Debug)]
pub enum DefinitionError {
    /// A key stands twice in one map.
    DuplicatedKey(String),
    /// The format of a pass could not be filled with a pattern.
    Format(String),
    /// The rules of a pass do not compile.
    Pass(pass::CreationError),
    /// A level above the base has the number 0.
    IntensityZero,
    /// A level has the number of an earlier one.
    DuplicatedIntensity(u64),
    /// A level has a lower number than the level before it.
    IntensitiesOutOfOrder(u64, u64),
}

/// What a [`DefinitionError`] is to the contracts.
pub enum DefinitionFault {
    DuplicatedKey(Seq<char>),
    Format(Seq<char>),
    Pass(pass::CreationError),
    IntensityZero,
    DuplicatedIntensity(u64),
    IntensitiesOutOfOrder(u64, u64),
}

impl View for DefinitionError {
    type V = DefinitionFault;

    open spec fn view(&self) -> DefinitionFault {
        match *self {
            DefinitionError::DuplicatedKey(key) => DefinitionFault::DuplicatedKey(key@),
            DefinitionError::Format(message) => DefinitionFault::Format(message@),
            DefinitionError::Pass(error) => DefinitionFault::Pass(error),
            DefinitionError::IntensityZero => DefinitionFault::IntensityZero,
            DefinitionError::DuplicatedIntensity(level) => DefinitionFault::DuplicatedIntensity(
                level,
            ),
            DefinitionError::IntensitiesOutOfOrder(before, level) => {
                DefinitionFault::IntensitiesOutOfOrder(before, level)
            },
        }
    }
}

/// What [`DefinitionError::message`] says of a fault.
pub open spec fn fault_message(fault: DefinitionFault) -> Seq<char> {
    match fault {
        DefinitionFault::DuplicatedKey(key) => "duplicated key: "@ + key,
        DefinitionFault::Format(message) => message,
        DefinitionFault::Pass(error) => pass::creation_message(error),
        DefinitionFault::IntensityZero => "intensity cannot be 0"@,
        DefinitionFault::DuplicatedIntensity(level) => "duplicate intensity level: "@ + decimal(
            level as nat,
        ),
        DefinitionFault::IntensitiesOutOfOrder(before, level) => "intensities out of order: "@
            + decimal(before as nat) + " > "@ + decimal(level as nat),
    }
}

impl DefinitionError {
    /// Says what went wrong.
    pub fn message(&self) -> (r: String)
        ensures
            r@ == fault_message(self@),
    {
        match self {
            DefinitionError::DuplicatedKey(key) => {
                let mut text = "duplicated key: ".to_owned();
                text.append(key.as_str());
                text
            },
            DefinitionError::Format(message) => message.clone(),
            DefinitionError::Pass(error) => error.message(),
            DefinitionError::IntensityZero => "intensity cannot be 0".to_owned(),
            DefinitionError::DuplicatedIntensity(level) => {
                let mut text = "duplicate intensity level: ".to_owned();
                text.append(decimal_text_u64(*level).as_str());
                text
            },
            DefinitionError::IntensitiesOutOfOrder(before, level) => {
                let mut text = "intensities out of order: ".to_owned();
                text.append(decimal_text_u64(*before).as_str());
                text.append(" > ");
                text.append(decimal_text_u64(*level).as_str());
                text
            },
        }
    }
}

/// The format of a pass that names none: the pattern as it is written.
pub fn default_pass_format() -> (r: String)
    ensures
        r@ == "{}"@,
{
    "{}".to_owned()
}

/// Whether the key at `i` stands at an earlier place too.
pub open spec fn repeats(keys: Seq<Seq<char>>, i: int) -> bool {
    exists|j: int| 0 <= j < i && #[trigger] keys[j] == keys[i]
}

/// Whether the key at `i` is the first that stands at an earlier place too.
pub open spec fn first_repeat(keys: Seq<Seq<char>>, i: int) -> bool {
    &&& 0 <= i < keys.len()
    &&& repeats(keys, i)
    &&& forall|k: int| 0 <= k < i ==> !repeats(keys, k)
}

/// The fault in `keys`, if one of them is repeated: the first that is.
pub open spec fn key_fault(keys: Seq<Seq<char>>) -> Option<DefinitionFault> {
    if exists|i: int| first_repeat(keys, i) {
        Some(DefinitionFault::DuplicatedKey(keys[choose|i: int| first_repeat(keys, i)]))
    } else {
        None
    }
}

/// The place of the first key of `entries` that stands at an earlier place too.
pub fn repeated_key<V>(entries: &Vec<(String, V)>) -> (r: Option<usize>)
    ensures
        match r {
            Some(i) => first_repeat(keys_of(entries@), i as int),
            None => forall|i: int| !first_repeat(keys_of(entries@), i),
        },
{
    let ghost keys = keys_of(entries@);
    let mut i: usize = 0;
    while i < entries.len()
        invariant
            i <= entries.len(),
            keys == keys_of(entries@),
            forall|k: int| 0 <= k < i ==> !repeats(keys, k),
        decreases entries.len() - i,
    {
        let mut j: usize = 0;
        while j < i
            invariant
                j <= i < entries.len(),
                keys == keys_of(entries@),
                forall|k: int| 0 <= k < i ==> !repeats(keys, k),
                forall|k: int| 0 <= k < j ==> #[trigger] keys[k] != keys[i as int],
            decreases i - j,
        {
            if entries[j].0 == entries[i].0 {
                assert(keys[j as int] == keys[i as int]);
                return Some(i);
            }
            j = j + 1;
        }
        assert(!repeats(keys, i as int));
        i = i + 1;
    }
    assert forall|i: int| !first_repeat(keys, i) by {}
    None
}

/// Whether `key` is among `keys`.
pub open spec fn holds_key(keys: Seq<Seq<char>>, key: Seq<char>) -> bool {
    exists|j: int| 0 <= j < keys.len() && #[trigger] keys[j] == key
}

/// A key is repeated where the keys before it hold it.
pub proof fn lemma_repeated_is_held(keys: Seq<Seq<char>>, i: int)
    requires
        0 <= i < keys.len(),
    ensures
        repeats(keys, i) == holds_key(keys.take(i), keys[i]),
{
    if repeats(keys, i) {
        let j = choose|j: int| 0 <= j < i && #[trigger] keys[j] == keys[i];
        assert(keys.take(i)[j] == keys[i]);
    }
    if holds_key(keys.take(i), keys[i]) {
        let j = choose|j: int| 0 <= j < keys.take(i).len() && #[trigger] keys.take(i)[j] == keys[i];
        assert(keys[j] == keys[i]);
    }
}

/// Refuses a key that `entries` hold already: the check for a map whose entries
/// are taken in one by one.
pub fn check_key<V>(entries: &Vec<(String, V)>, key: &String) -> (r: Result<(), DefinitionError>)
    ensures
        match r {
            Ok(_) => !holds_key(keys_of(entries@), key@),
            Err(e) => holds_key(keys_of(entries@), key@) && e@ == DefinitionFault::DuplicatedKey(
                key@,
            ),
        },
{
    let ghost keys = keys_of(entries@);
    let mut j: usize = 0;
    while j < entries.len()
        invariant
            j <= entries.len(),
            keys == keys_of(entries@),
            forall|k: int| 0 <= k < j ==> #[trigger] keys[k] != key@,
        decreases entries.len() - j,
    {
        if entries[j].0 == *key {
            assert(keys[j as int] == key@);
            return Err(DefinitionError::DuplicatedKey(key.clone()));
        }
        j = j + 1;
    }
    Ok(())
}

/// Refuses entries of which two have one key.
pub fn check_unique<V>(entries: &Vec<(String, V)>) -> (r: Result<(), DefinitionError>)
    ensures
        match r {
            Ok(_) => key_fault(keys_of(entries@)) is None,
            Err(e) => key_fault(keys_of(entries@)) == Some(e@),
        },
{
    let ghost keys = keys_of(entries@);
    match repeated_key(entries) {
        Some(i) => {
            proof {
                lemma_first_repeat_is_one(keys, i as int, choose|x: int| first_repeat(keys, x));
            }
            Err(DefinitionError::DuplicatedKey(entries[i].0.clone()))
        },
        None => Ok(()),
    }
}

/// There is one first repeated key at most.
pub proof fn lemma_first_repeat_is_one(keys: Seq<Seq<char>>, i: int, j: int)
    requires
        first_repeat(keys, i),
        first_repeat(keys, j),
    ensures
        i == j,
{
}

/// What is wrong with the number of the level at `i`, if the numbers before it
/// are in order: it is 0, or the number of an earlier level, or below the number
/// before it.
pub open spec fn level_fault(levels: Seq<u64>, i: int) -> Option<DefinitionFault> {
    if levels[i] == 0 {
        Some(DefinitionFault::IntensityZero)
    } else if exists|j: int| 0 <= j < i && #[trigger] levels[j] == levels[i] {
        Some(DefinitionFault::DuplicatedIntensity(levels[i]))
    } else if i > 0 && levels[i - 1] > levels[i] {
        Some(DefinitionFault::IntensitiesOutOfOrder(levels[i - 1], levels[i]))
    } else {
        None
    }
}

/// Checks the number of the level at `i` against the numbers of the levels before
/// it.
pub fn check_level(levels: &Vec<u64>, i: usize) -> (r: Result<(), DefinitionError>)
    requires
        i < levels.len(),
    ensures
        match r {
            Ok(_) => level_fault(levels@, i as int) is None,
            Err(e) => level_fault(levels@, i as int) == Some(e@),
        },
{
    let level = levels[i];
    if level == 0 {
        return Err(DefinitionError::IntensityZero);
    }
    let mut j: usize = 0;
    while j < i
        invariant
            j <= i < levels.len(),
            level == levels@[i as int],
            level != 0,
            forall|k: int| 0 <= k < j ==> #[trigger] levels@[k] != level,
        decreases i - j,
    {
        if levels[j] == level {
            assert(levels@[j as int] == levels@[i as int]);
            return Err(DefinitionError::DuplicatedIntensity(level));
        }
        j = j + 1;
    }
    if i > 0 && levels[i - 1] > level {
        return Err(DefinitionError::IntensitiesOutOfOrder(levels[i - 1], level));
    }
    Ok(())
}

/// Numbers without a fault, behind a 0, start at 0 and rise strictly.
pub proof fn lemma_faultless_levels_rise(levels: Seq<u64>)
    requires
        forall|i: int| 0 <= i < levels.len() ==> level_fault(levels, i) is None,
    ensures
        rising(seq![0u64] + levels),
{
    let all = seq![0u64] + levels;
    assert forall|i: int| 1 <= i < all.len() implies all[i - 1] < #[trigger] all[i] by {
        assert(level_fault(levels, i - 1) is None);
        assert(all[i] == levels[i - 1]);
        if i >= 2 {
            assert(all[i - 1] == levels[i - 2]);
            assert(levels[i - 2] != levels[i - 1]);
        }
    }
}

/// The patterns that `format` makes of the first `k` of `keys`, or the message of
/// the first key that it cannot be filled with.
pub open spec fn patterns_formatted(format: Seq<char>, keys: Seq<Seq<char>>, k: int) -> Result<
    Seq<Seq<char>>,
    Seq<char>,
>
    decreases k,
{
    if k <= 0 {
        Ok(Seq::empty())
    } else {
        match patterns_formatted(format, keys, k - 1) {
            Ok(done) => match formatted(format, keys[k - 1]) {
                Ok(pattern) => Ok(done.push(pattern)),
                Err(message) => Err(message),
            },
            Err(message) => Err(message),
        }
    }
}

/// Once a key has failed to fill the format, the outcome stays what it is.
pub proof fn lemma_format_fails(format: Seq<char>, keys: Seq<Seq<char>>, k: int, n: int)
    requires
        k <= n,
        patterns_formatted(format, keys, k) is Err,
    ensures
        patterns_formatted(format, keys, n) == patterns_formatted(format, keys, k),
    decreases n - k,
{
    if k < n {
        lemma_format_fails(format, keys, k, n - 1);
    }
}

/// What a written pass comes to: the patterns that its rules have once the format
/// is filled, or what is wrong with it. A repeated key comes before a format that
/// cannot be filled, and that before patterns that do not compile.
pub open spec fn pass_outcome(format: Seq<char>, keys: Seq<Seq<char>>) -> Result<
    Seq<Seq<char>>,
    DefinitionFault,
> {
    match key_fault(keys) {
        Some(fault) => Err(fault),
        None => match patterns_formatted(format, keys, keys.len() as int) {
            Err(message) => Err(DefinitionFault::Format(message)),
            Ok(patterns) => if compiles(patterns) {
                Ok(patterns)
            } else {
                Err(DefinitionFault::Pass(refusal(patterns)))
            },
        },
    }
}

/// Makes a pass of rules as they are written: each key is put into `format`, and
/// what comes of it is the pattern of the rule.
pub fn pass_from_definition(format: &str, rules: Vec<(String, Box<dyn Tag>)>) -> (r: Result<
    Pass,
    DefinitionError,
>)
    ensures
        match r {
            Ok(pass) => {
                &&& pass.wf()
                &&& pass_outcome(format@, keys_of(rules@)) == Ok::<
                    Seq<Seq<char>>,
                    DefinitionFault,
                >(pass.patterns())
                &&& pass.tags().len() == rules.len()
                &&& forall|i: int| 0 <= i < rules.len() ==> #[trigger] pass.tags()[i] == rules[i].1
            },
            Err(e) => pass_outcome(format@, keys_of(rules@)) == Err::<
                Seq<Seq<char>>,
                DefinitionFault,
            >(e@),
        },
{
    let ghost given = rules@;
    let ghost keys = keys_of(rules@);
    match check_unique(&rules) {
        Err(e) => {
            return Err(e);
        },
        Ok(_) => {},
    }
    let mut patterns: Vec<String> = Vec::new();
    let mut tags: Vec<SharedTag> = Vec::new();
    proof {
        assert(pass::texts(patterns@) =~= Seq::<Seq<char>>::empty());
    }
    for rule in iter: rules
        invariant
            iter.seq() == given,
            given == rules@,
            keys == keys_of(given),
            key_fault(keys) is None,
            patterns.len() == iter.index(),
            tags.len() == iter.index(),
            patterns_formatted(format@, keys, iter.index() as int) == Ok::<
                Seq<Seq<char>>,
                Seq<char>,
            >(pass::texts(patterns@)),
            forall|i: int| 0 <= i < iter.index() ==> #[trigger] tags@[i] == given[i].1,
    {
        let ghost k = iter.index() as int;
        let ghost before = pass::texts(patterns@);
        let (key, tag) = rule;
        proof {
            assert(keys[k] == key@);
        }
        match runtime_format_single_value(format, key.as_str()) {
            Ok(pattern) => {
                let shared = Arc::new(tag);
                patterns.push(pattern);
                tags.push(shared);
                proof {
                    assert(pass::texts(patterns@) =~= before.push(pattern@));
                }
            },
            Err(message) => {
                proof {
                    lemma_format_fails(format@, keys, k + 1, keys.len() as int);
                }
                return Err(DefinitionError::Format(message));
            },
        }
    }
    match Pass::from_parts(patterns, tags) {
        Ok(pass) => Ok(pass),
        Err(e) => Err(DefinitionError::Pass(e)),
    }
}

/// A level above the base as it is written: passes that take the place of all
/// passes of the level before it, or passes that are laid over them.
pub enum IntensityDef {
    Replace(Vec<(String, Pass)>),
    Extend(Vec<(String, Pass)>),
}

impl IntensityDef {
    /// The passes that are written for the level.
    pub open spec fn passes(&self) -> Seq<(String, Pass)> {
        match *self {
            IntensityDef::Replace(passes) => passes@,
            IntensityDef::Extend(passes) => passes@,
        }
    }

    /// Whether the passes are laid over those of the level before.
    pub open spec fn extends(&self) -> bool {
        self is Extend
    }

    /// The passes that are written for the level.
    pub fn written(&self) -> (r: &Vec<(String, Pass)>)
        ensures
            r@ == self.passes(),
    {
        match self {
            IntensityDef::Replace(passes) => passes,
            IntensityDef::Extend(passes) => passes,
        }
    }
}

/// The numbers of the written levels.
pub open spec fn written_numbers(levels: Seq<(u64, IntensityDef)>) -> Seq<u64> {
    Seq::new(levels.len(), |i: int| levels[i].0)
}

/// What is wrong with the written level at `i`: a name that is repeated among its
/// passes, or else its number.
pub open spec fn entry_fault(levels: Seq<(u64, IntensityDef)>, i: int) -> Option<DefinitionFault> {
    match key_fault(keys_of(levels[i].1.passes())) {
        Some(fault) => Some(fault),
        None => level_fault(written_numbers(levels), i),
    }
}

/// The first thing that is wrong with what is written, among the names of the base
/// passes and the first `k` levels.
pub open spec fn written_fault(
    base: Seq<(String, Pass)>,
    levels: Seq<(u64, IntensityDef)>,
    k: int,
) -> Option<DefinitionFault>
    decreases k,
{
    if k <= 0 {
        key_fault(keys_of(base))
    } else {
        match written_fault(base, levels, k - 1) {
            Some(fault) => Some(fault),
            None => entry_fault(levels, k - 1),
        }
    }
}

/// The base and the first `k` written levels above it, each made from the level
/// before it, or the reason why one of them cannot be made.
pub open spec fn stacked(base: Entries, levels: Seq<(u64, IntensityDef)>, k: int) -> Result<
    Seq<IntensityView>,
    pass::CreationError,
>
    decreases k,
{
    if k <= 0 {
        Ok(seq![IntensityView { level: 0, entries: base }])
    } else {
        match stacked(base, levels, k - 1) {
            Err(e) => Err(e),
            Ok(below) => {
                let written = levels[k - 1];
                let passes = entries_of(written.1.passes());
                if written.1.extends() {
                    match extended(below.last().entries, passes, passes.len() as int) {
                        Ok(entries) => Ok(
                            below.push(IntensityView { level: written.0, entries }),
                        ),
                        Err(e) => Err(e),
                    }
                } else {
                    Ok(below.push(IntensityView { level: written.0, entries: passes }))
                }
            },
        }
    }
}

/// What levels are to the contracts, one by one.
pub open spec fn views(levels: Seq<Intensity>) -> Seq<IntensityView> {
    Seq::new(levels.len(), |i: int| levels[i]@)
}

/// What a written accent comes to: its levels, or what is wrong with it. What is
/// wrong with the writing comes before what does not compile.
pub open spec fn accent_outcome(base: Seq<(String, Pass)>, levels: Seq<(u64, IntensityDef)>) -> Result<
    Seq<IntensityView>,
    DefinitionFault,
> {
    match written_fault(base, levels, levels.len() as int) {
        Some(fault) => Err(fault),
        None => match stacked(entries_of(base), levels, levels.len() as int) {
            Ok(made) => Ok(made),
            Err(e) => Err(DefinitionFault::Pass(e)),
        },
    }
}

/// Once something is wrong with what is written, it stays the first thing wrong.
pub proof fn lemma_fault_stays(
    base: Seq<(String, Pass)>,
    levels: Seq<(u64, IntensityDef)>,
    k: int,
    n: int,
)
    requires
        k <= n,
        written_fault(base, levels, k) is Some,
    ensures
        written_fault(base, levels, n) == written_fault(base, levels, k),
    decreases n - k,
{
    if k < n {
        lemma_fault_stays(base, levels, k, n - 1);
    }
}

/// Once a level cannot be made, none above it is.
pub proof fn lemma_stack_fails(base: Entries, levels: Seq<(u64, IntensityDef)>, k: int, n: int)
    requires
        k <= n,
        stacked(base, levels, k) is Err,
    ensures
        stacked(base, levels, n) == stacked(base, levels, k),
    decreases n - k,
{
    if k < n {
        lemma_stack_fails(base, levels, k, n - 1);
    }
}

/// Where nothing is wrong with the first `k` written levels, nothing is wrong
/// with the number of any of them.
pub proof fn lemma_faultless_numbers(
    base: Seq<(String, Pass)>,
    levels: Seq<(u64, IntensityDef)>,
    k: int,
    i: int,
)
    requires
        0 <= i < k <= levels.len(),
        written_fault(base, levels, k) is None,
    ensures
        level_fault(written_numbers(levels), i) is None,
    decreases k,
{
    if i < k - 1 {
        lemma_faultless_numbers(base, levels, k - 1, i);
    }
}

/// The levels that are stacked have the numbers that are written, above a 0.
pub proof fn lemma_stacked_numbers(base: Entries, levels: Seq<(u64, IntensityDef)>, k: int)
    requires
        0 <= k <= levels.len(),
        stacked(base, levels, k) is Ok,
    ensures
        stacked(base, levels, k)->Ok_0.len() == k + 1,
        stacked(base, levels, k)->Ok_0[0].level == 0,
        forall|i: int|
            1 <= i <= k ==> (#[trigger] stacked(base, levels, k)->Ok_0[i]).level == levels[i
                - 1].0,
    decreases k,
{
    if k > 0 {
        lemma_stacked_numbers(base, levels, k - 1);
    }
}

/// Checks what is written before anything is compiled: no name may be repeated
/// among the passes of a level, and the numbers of the levels above the base must
/// be above 0 and rise.
pub fn check_written(base: &Vec<(String, Pass)>, levels: &Vec<(u64, IntensityDef)>) -> (r: Result<
    (),
    DefinitionError,
>)
    ensures
        match r {
            Ok(_) => written_fault(base@, levels@, levels.len() as int) is None,
            Err(e) => written_fault(base@, levels@, levels.len() as int) == Some(e@),
        },
{
    let ghost count = levels@.len() as int;
    match check_unique(base) {
        Err(e) => {
            proof {
                lemma_fault_stays(base@, levels@, 0, count);
            }
            return Err(e);
        },
        Ok(_) => {},
    }
    let mut level_numbers: Vec<u64> = Vec::new();
    let mut i: usize = 0;
    while i < levels.len()
        invariant
            i <= levels.len(),
            level_numbers@ == written_numbers(levels@).take(i as int),
        decreases levels.len() - i,
    {
        level_numbers.push(levels[i].0);
        proof {
            assert(level_numbers@ == written_numbers(levels@).take(i as int + 1));
        }
        i = i + 1;
    }
    proof {
        assert(level_numbers@ == written_numbers(levels@));
    }
    let mut i: usize = 0;
    while i < levels.len()
        invariant
            i <= levels.len(),
            count == levels@.len(),
            level_numbers@ == written_numbers(levels@),
            written_fault(base@, levels@, i as int) is None,
        decreases levels.len() - i,
    {
        match check_unique(levels[i].1.written()) {
            Err(e) => {
                proof {
                    lemma_fault_stays(base@, levels@, i as int + 1, count);
                }
                return Err(e);
            },
            Ok(_) => {},
        }
        match check_level(&level_numbers, i) {
            Err(e) => {
                proof {
                    lemma_fault_stays(base@, levels@, i as int + 1, count);
                }
                return Err(e);
            },
            Ok(_) => {},
        }
        i = i + 1;
    }
    Ok(())
}

/// Makes the levels that are written, from the base up: each level above the base
/// from the one before it, which it replaces or extends.
pub fn stack_levels(base: Vec<(String, Pass)>, levels: Vec<(u64, IntensityDef)>) -> (r: Result<
    Vec<Intensity>,
    pass::CreationError,
>)
    ensures
        match r {
            Ok(made) => {
                &&& stacked(entries_of(base@), levels@, levels.len() as int) == Ok::<
                    Seq<IntensityView>,
                    pass::CreationError,
                >(views(made@))
                &&& forall|j: int| 0 <= j < made.len() ==> (#[trigger] made@[j]).wf()
            },
            Err(e) => stacked(entries_of(base@), levels@, levels.len() as int) == Err::<
                Seq<IntensityView>,
                pass::CreationError,
            >(e),
        },
{
    let ghost written = levels@;
    let ghost count = levels@.len() as int;
    let ghost foot = entries_of(base@);
    let mut intensities: Vec<Intensity> = Vec::new();
    intensities.push(Intensity::new(0, base));
    proof {
        assert(views(intensities@) =~= seq![IntensityView { level: 0, entries: foot }]);
    }
    for entry in iter: levels
        invariant
            iter.seq() == written,
            written == levels@,
            count == written.len(),
            foot == entries_of(base@),
            intensities.len() == iter.index() + 1,
            forall|j: int| 0 <= j < intensities.len() ==> (#[trigger] intensities@[j]).wf(),
            stacked(foot, written, iter.index() as int) == Ok::<
                Seq<IntensityView>,
                pass::CreationError,
            >(views(intensities@)),
    {
        let ghost k = iter.index() as int;
        let ghost below = views(intensities@);
        let (level, def) = entry;
        proof {
            assert(written[k] == (level, def));
            assert(below.last() == intensities@[k]@);
        }
        let made = match def {
            IntensityDef::Replace(passes) => Intensity::new(level, passes),
            IntensityDef::Extend(passes) => {
                match intensities[intensities.len() - 1].extend(level, passes) {
                    Ok(made) => made,
                    Err(e) => {
                        proof {
                            lemma_stack_fails(foot, written, k + 1, count);
                        }
                        return Err(e);
                    },
                }
            },
        };
        intensities.push(made);
        proof {
            assert(views(intensities@) =~= below.push(made@));
        }
    }
    Ok(intensities)
}

/// Makes an accent of what is written: base passes under their names, and above
/// them levels with their numbers, each replacing or extending the level before
/// it.
pub fn accent_from_definition(base: Vec<(String, Pass)>, levels: Vec<(u64, IntensityDef)>) -> (r:
    Result<Accent, DefinitionError>)
    ensures
        match r {
            Ok(accent) => {
                &&& accent.wf()
                &&& accent_outcome(base@, levels@) == Ok::<Seq<IntensityView>, DefinitionFault>(
                    views(accent.levels()),
                )
            },
            Err(e) => accent_outcome(base@, levels@) == Err::<
                Seq<IntensityView>,
                DefinitionFault,
            >(e@),
        },
{
    let ghost first = base@;
    let ghost written = levels@;
    let ghost count = levels@.len() as int;
    match check_written(&base, &levels) {
        Err(e) => {
            return Err(e);
        },
        Ok(_) => {},
    }
    let intensities = match stack_levels(base, levels) {
        Ok(made) => made,
        Err(e) => {
            return Err(DefinitionError::Pass(e));
        },
    };
    proof {
        let made = views(intensities@);
        lemma_stacked_numbers(entries_of(first), written, count);
        assert forall|j: int| 0 <= j < count implies level_fault(written_numbers(written), j)
            is None by {
            lemma_faultless_numbers(first, written, count, j);
        }
        lemma_faultless_levels_rise(written_numbers(written));
        assert(numbers(intensities@) =~= seq![0u64] + written_numbers(written)) by {
            assert forall|j: int| 0 <= j < numbers(intensities@).len() implies numbers(
                intensities@,
            )[j] == (seq![0u64] + written_numbers(written))[j] by {
                assert(numbers(intensities@)[j] == made[j].level);
            }
        }
    }
    match Accent::try_from(intensities) {
        Ok(accent) => Ok(accent),
        Err(e) => {
            proof {
                assert(false);
            }
            vstd::pervasive::unreached()
        },
    }
}

} // verus!
