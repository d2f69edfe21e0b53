//! The accent: levels of intensity, of which the highest that does not exceed the
//! request is applied.

use vstd::prelude::*;
use crate::intensity::{lemma_untouched, Intensity};
use crate::pass::scan;

verus! {

/// Why a list of levels could not be made into an accent.
#[derive(Debug, PartialEq, Eq)]
pub enum CreationError {
    /// There is no level at all.
    IntensityZeroMissing,
    /// The first level is not level 0.
    FirstIntensityNotZero,
    /// This level is not above the one before it.
    UnsortedOrDuplicatedIntensities(u64),
}

/// The decimal digits of `n`.
pub open spec fn level_text(n: u64) -> Seq<char> {
    crate::utils::decimal(n as nat)
}

/// What [`CreationError::message`] says of `error`.
pub open spec fn creation_message(error: CreationError) -> Seq<char> {
    match error {
        CreationError::IntensityZeroMissing => "expected at least a base intensity 0"@,
        CreationError::FirstIntensityNotZero => "first intensity must have level 0"@,
        CreationError::UnsortedOrDuplicatedIntensities(level) => {
            "duplicated or out of order intensity level "@ + level_text(level)
        },
    }
}

impl CreationError {
    /// Says what went wrong.
    pub fn message(&self) -> (r: String)
        ensures
            r@ == creation_message(*self),
    {
        match self {
            CreationError::IntensityZeroMissing => {
                "expected at least a base intensity 0".to_owned()
            },
            CreationError::FirstIntensityNotZero => "first intensity must have level 0".to_owned(),
            CreationError::UnsortedOrDuplicatedIntensities(level) => {
                let mut text = "duplicated or out of order intensity level ".to_owned();
                let number = crate::utils::decimal_text_u64(*level);
                text.append(number.as_str());
                text
            },
        }
    }
}

/// The numbers of `levels`.
pub open spec fn numbers(levels: Seq<Intensity>) -> Seq<u64> {
    Seq::new(levels.len(), |i: int| levels[i]@.level)
}

/// Whether `levels` starts at 0 and rises strictly.
pub open spec fn rising(levels: Seq<u64>) -> bool {
    &&& levels.len() > 0
    &&& levels[0] == 0
    &&& forall|i: int| 1 <= i < levels.len() ==> levels[i - 1] < #[trigger] levels[i]
}

/// Whether the level at `i` is the first that is not above the one before it.
pub open spec fn first_fall(levels: Seq<u64>, i: int) -> bool {
    &&& 1 <= i < levels.len()
    &&& levels[i] <= levels[i - 1]
    &&& forall|j: int| 1 <= j < i ==> levels[j - 1] < #[trigger] levels[j]
}

/// Whether the level at `i` is the one for the request: the greatest that does
/// not exceed it.
pub open spec fn selected(levels: Seq<u64>, request: u64, i: int) -> bool {
    &&& 0 <= i < levels.len()
    &&& levels[i] <= request
    &&& forall|j: int| 0 <= j < levels.len() && #[trigger] levels[j] <= request ==> levels[j]
        <= levels[i]
}

/// In a rising list, a level is above every level before it.
pub proof fn lemma_rising_sorted(levels: Seq<u64>, a: int, b: int)
    requires
        rising(levels),
        0 <= a < b < levels.len(),
    ensures
        levels[a] < levels[b],
    decreases b - a,
{
    if a + 1 < b {
        lemma_rising_sorted(levels, a, b - 1);
    }
    assert(levels[b - 1] < levels[b]);
}

/// Every request has its level, and a higher request never has a lower one.
pub proof fn lemma_selection_monotone(levels: Seq<u64>, low: u64, high: u64, i: int, j: int)
    requires
        rising(levels),
        low <= high,
        selected(levels, low, i),
        selected(levels, high, j),
    ensures
        levels[i] <= levels[j],
        i <= j,
{
    assert(levels[i] <= high);
    if j < i {
        lemma_rising_sorted(levels, j, i);
    }
}

/// Every request has a level.
pub proof fn lemma_selection_exists(levels: Seq<u64>, request: u64) -> (i: int)
    requires
        rising(levels),
    ensures
        selected(levels, request, i),
{
    lemma_last_within(levels, request, levels.len() - 1)
}

proof fn lemma_last_within(levels: Seq<u64>, request: u64, top: int) -> (i: int)
    requires
        rising(levels),
        0 <= top < levels.len(),
        forall|j: int| top < j < levels.len() ==> #[trigger] levels[j] > request,
    ensures
        selected(levels, request, i),
    decreases top,
{
    if levels[top] <= request {
        assert forall|j: int| 0 <= j < levels.len() && #[trigger] levels[j] <= request implies levels[j]
            <= levels[top] by {
            if j < top {
                lemma_rising_sorted(levels, j, top);
            }
        }
        top
    } else {
        lemma_last_within(levels, request, top - 1)
    }
}

/// Replaces patterns in text according to the rules of its levels.
pub struct Accent {
    // the levels, lowest first
    intensities: Vec<Intensity>,
}

impl Accent {
    #[verifier::type_invariant]
    pub(crate) open spec fn sound(&self) -> bool {
        self.wf()
    }

    /// The levels start at 0 and rise strictly, and each is a level as
    /// [`Intensity::new`] makes it.
    pub closed spec fn wf(&self) -> bool {
        &&& rising(numbers(self.intensities@))
        &&& forall|i: int| 0 <= i < self.intensities.len() ==> (#[trigger] self.intensities[i]).wf()
    }

    /// The levels, lowest first.
    pub closed spec fn levels(&self) -> Seq<Intensity> {
        self.intensities@
    }

    /// An accent has level 0, and its levels rise.
    pub proof fn lemma_wf(&self)
        requires
            self.wf(),
        ensures
            rising(numbers(self.levels())),
            forall|i: int| 0 <= i < self.levels().len() ==> (#[trigger] self.levels()[i]).wf(),
    {
    }

    /// Whether `out` is a text that the accent may make of `text` at the requested
    /// intensity: what the level selected for the request may make of it.
    pub open spec fn says(&self, text: Seq<char>, request: u64, out: Seq<char>) -> bool {
        exists|i: int|
            selected(numbers(self.levels()), request, i) && #[trigger] self.levels()[i].rewrites(
                text,
                out,
            )
    }

    /// What [`Accent::try_from`] makes of `intensities`.
    pub closed spec fn made_of(intensities: Vec<Intensity>) -> Result<Self, CreationError> {
        let levels = numbers(intensities@);
        if levels.len() == 0 {
            Err(CreationError::IntensityZeroMissing)
        } else if levels[0] != 0 {
            Err(CreationError::FirstIntensityNotZero)
        } else if exists|i: int| first_fall(levels, i) {
            Err(
                CreationError::UnsortedOrDuplicatedIntensities(
                    levels[choose|i: int| first_fall(levels, i)],
                ),
            )
        } else {
            Ok(Accent { intensities })
        }
    }

    /// Makes an accent of levels that start at 0 and rise strictly; any other list
    /// is refused, with the first thing that is wrong with it.
    pub fn try_from(intensities: Vec<Intensity>) -> (r: Result<Self, CreationError>)
        ensures
            r == Accent::made_of(intensities),
            match r {
                Ok(accent) => {
                    &&& rising(numbers(intensities@))
                    &&& accent.wf()
                    &&& accent.levels() == intensities@
                },
                Err(CreationError::IntensityZeroMissing) => intensities.len() == 0,
                Err(CreationError::FirstIntensityNotZero) => {
                    &&& intensities.len() > 0
                    &&& intensities[0]@.level != 0
                },
                Err(CreationError::UnsortedOrDuplicatedIntensities(level)) => {
                    &&& intensities.len() > 0
                    &&& intensities[0]@.level == 0
                    &&& exists|i: int|
                        #[trigger] first_fall(numbers(intensities@), i) && level
                            == intensities[i]@.level
                },
            },
    {
        if intensities.len() == 0 {
            return Err(CreationError::IntensityZeroMissing);
        }
        let first = &intensities[0];
        proof {
            use_type_invariant(first);
        }
        if first.level() != 0 {
            return Err(CreationError::FirstIntensityNotZero);
        }
        let ghost levels = numbers(intensities@);
        let mut i: usize = 1;
        while i < intensities.len()
            invariant
                1 <= i <= intensities.len(),
                levels == numbers(intensities@),
                levels[0] == 0,
                forall|j: int| 1 <= j < i ==> levels[j - 1] < #[trigger] levels[j],
                forall|j: int| 0 <= j < i ==> (#[trigger] intensities[j]).wf(),
            decreases intensities.len() - i,
        {
            let current = &intensities[i];
            proof {
                use_type_invariant(current);
            }
            let level = current.level();
            if level <= intensities[i - 1].level() {
                proof {
                    assert(first_fall(levels, i as int));
                    let first = choose|x: int| first_fall(levels, x);
                    assert(first == i) by {
                        if first < i {
                            assert(levels[first - 1] < levels[first]);
                        }
                    }
                }
                return Err(CreationError::UnsortedOrDuplicatedIntensities(level));
            }
            i = i + 1;
        }
        proof {
            if exists|x: int| first_fall(levels, x) {
                let first = choose|x: int| first_fall(levels, x);
                assert(levels[first - 1] < levels[first]);
            }
        }
        Ok(Self { intensities })
    }

    /// All levels that the accent has, in ascending order. There may be gaps.
    pub fn intensities(&self) -> (r: Vec<u64>)
        ensures
            r@ == numbers(self.levels()),
    {
        let mut levels: Vec<u64> = Vec::new();
        let mut i: usize = 0;
        while i < self.intensities.len()
            invariant
                i <= self.intensities.len(),
                levels@ == numbers(self.intensities@).take(i as int),
            decreases self.intensities.len() - i,
        {
            levels.push(self.intensities[i].level());
            proof {
                assert(levels@ == numbers(self.intensities@).take(i as int + 1));
            }
            i = i + 1;
        }
        proof {
            assert(levels@ == numbers(self.intensities@));
        }
        levels
    }

    /// Applies the rules of the highest level that does not exceed `intensity`.
    pub fn say_it(&self, text: &str, intensity: u64) -> (r: String)
        ensures
            self.says(text@, intensity, r@),
    {
        proof {
            use_type_invariant(self);
        }
        let ghost levels = numbers(self.intensities@);
        let mut i: usize = self.intensities.len() - 1;
        while self.intensities[i].level() > intensity
            invariant
                i < self.intensities.len(),
                levels == numbers(self.intensities@),
                rising(levels),
                forall|j: int| i < j < levels.len() ==> #[trigger] levels[j] > intensity,
            decreases i,
        {
            i = i - 1;
        }
        proof {
            assert forall|j: int| 0 <= j < levels.len() && #[trigger] levels[j]
                <= intensity implies levels[j] <= levels[i as int] by {
                if j < i {
                    lemma_rising_sorted(levels, j, i as int);
                }
            }
            assert(selected(levels, intensity, i as int));
        }
        let r = self.intensities[i].apply(text);
        proof {
            assert(self.levels()[i as int].rewrites(text@, r@));
        }
        r
    }
}

impl TryFrom<Vec<Intensity>> for Accent {
    type Error = CreationError;

    /// Does what [`Accent::try_from`] does.
    fn try_from(intensities: Vec<Intensity>) -> (r: Result<Self, CreationError>) {
        Accent::try_from(intensities)
    }
}

impl vstd::std_specs::convert::TryFromSpecImpl<Vec<Intensity>> for Accent {
    open spec fn obeys_try_from_spec() -> bool {
        true
    }

    open spec fn try_from_spec(v: Vec<Intensity>) -> Result<Self, CreationError> {
        Accent::made_of(v)
    }
}

/// A text in which no pass of the level selected for the request finds anything
/// comes back as it is.
pub proof fn lemma_unmatched_text_is_kept(
    accent: &Accent,
    text: Seq<char>,
    request: u64,
    out: Seq<char>,
)
    requires
        accent.wf(),
        accent.says(text, request, out),
        forall|i: int, k: int|
            selected(numbers(accent.levels()), request, i) && 0 <= k
                < accent.levels()[i].pass_list().len() ==> scan(
                (#[trigger] accent.levels()[i].pass_list()[k]).regex(),
                text,
            ).len() == 0,
    ensures
        out == text,
{
    let i = choose|i: int|
        selected(numbers(accent.levels()), request, i) && #[trigger] accent.levels()[i].rewrites(
            text,
            out,
        );
    let passes = accent.levels()[i].pass_list();
    assert forall|k: int| 0 <= k < passes.len() implies scan(
        (#[trigger] passes[k]).regex(),
        text,
    ).len() == 0 by {
        assert(passes[k] == accent.levels()[i].pass_list()[k]);
    }
    lemma_untouched(passes, passes.len() as int, text, out);
}

} // verus!
