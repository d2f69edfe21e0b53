//! The tags that come with the library.

use vstd::prelude::*;
use crate::matching::{Match, MatchView};
use crate::tag::Tag;
use crate::text::{lowercased, uppercased};

pub mod literal;

pub use literal::Literal;

verus! {

/// Gives the whole match back as it stands: no template, no case mimicking.
#[derive(Clone, Debug)]
pub struct Original;

impl Original {
    pub fn new() -> Self {
        Self {  }
    }

    pub fn new_boxed() -> Box<Self> {
        Box::new(Self::new())
    }
}

impl Tag for Original {
    open spec fn produces(&self, m: MatchView, out: Seq<char>) -> bool {
        out == m.matched()
    }

    fn generate(&self, m: &Match) -> (r: String) {
        m.get_match().to_owned()
    }
}

/// Deletes the match.
#[derive(Clone, Debug)]
pub struct Delete;

impl Delete {
    pub fn new() -> Self {
        Self
    }

    pub fn new_boxed() -> Box<Self> {
        Box::new(Self::new())
    }
}

impl Tag for Delete {
    open spec fn produces(&self, m: MatchView, out: Seq<char>) -> bool {
        out == Seq::<char>::empty()
    }

    fn generate(&self, m: &Match) -> (r: String) {
        String::new()
    }
}

/// `fastrand::usize` on the range below `n`: some index below `n`, whichever the
/// generator of the thread comes up with. It panics on an empty range.
#[verifier::external_body]
fn random_index(n: usize) -> (r: usize)
    requires
        n > 0,
    ensures
        r < n,
{
    fastrand::usize(..n)
}

/// `fastrand::u128` on the range from zero to `total`, both included: some number
/// in it, whichever the generator of the thread comes up with.
#[verifier::external_body]
fn random_point(total: u128) -> (r: u128)
    ensures
        r <= total,
{
    fastrand::u128(0..=total)
}

/// Why an [`Any`] could not be made.
#[derive(Debug, PartialEq, Eq)]
pub enum AnyError {
    /// There must be at least one tag to choose from.
    ZeroItems,
}

impl AnyError {
    /// Says what went wrong.
    pub fn message(&self) -> (r: String)
        ensures
            r@ == "expected at least one element to choose from"@,
    {
        "expected at least one element to choose from".to_owned()
    }
}

/// Selects any of its tags, each with the same probability.
pub struct Any(Vec<Box<dyn Tag>>);

impl Any {
    #[verifier::type_invariant]
    spec fn has_items(&self) -> bool {
        self.0.len() > 0
    }

    /// The tags to choose from.
    pub closed spec fn items(&self) -> Seq<Box<dyn Tag>> {
        self.0@
    }

    /// Fails on an empty list, and on no other.
    pub fn new(items: Vec<Box<dyn Tag>>) -> (r: Result<Self, AnyError>)
        ensures
            items.len() == 0 ==> r == Err::<Self, AnyError>(AnyError::ZeroItems),
            items.len() > 0 ==> r is Ok && r->Ok_0.items() == items@,
    {
        if items.len() == 0 {
            return Err(AnyError::ZeroItems);
        }
        Ok(Self(items))
    }

    pub fn new_boxed(items: Vec<Box<dyn Tag>>) -> (r: Result<Box<Self>, AnyError>)
        ensures
            items.len() == 0 ==> r == Err::<Box<Self>, AnyError>(AnyError::ZeroItems),
            items.len() > 0 ==> r is Ok && r->Ok_0.items() == items@,
    {
        match Self::new(items) {
            Ok(any) => Ok(Box::new(any)),
            Err(e) => Err(e),
        }
    }

    /// The replacement that the tag at `index` makes for the match.
    pub fn generate_with(&self, index: usize, m: &Match) -> (r: String)
        requires
            index < self.items().len(),
            m.wf(),
        ensures
            self.items()[index as int].produces(m@, r@),
    {
        self.0[index].generate(m)
    }
}

impl Tag for Any {
    open spec fn produces(&self, m: MatchView, out: Seq<char>) -> bool {
        exists|i: int| 0 <= i < self.items().len() && #[trigger] self.items()[i].produces(m, out)
    }

    fn generate(&self, m: &Match) -> (r: String) {
        proof {
            use_type_invariant(self);
        }
        let i = random_index(self.0.len());

        self.generate_with(i, m)
    }
}

/// Why a [`Weights`] could not be made.
#[derive(Debug, PartialEq, Eq)]
pub enum WeightsError {
    /// There must be at least one tag to choose from.
    ZeroItems,
    /// The weights must add up to a positive number.
    NonPositiveTotalWeights,
}

impl WeightsError {
    /// Says what went wrong.
    pub fn message(&self) -> (r: String)
        ensures
            r@ == match *self {
                WeightsError::ZeroItems => "expected at least one element to choose from"@,
                WeightsError::NonPositiveTotalWeights => "weights must add up to a positive number"@,
            },
    {
        match self {
            WeightsError::ZeroItems => "expected at least one element to choose from".to_owned(),
            WeightsError::NonPositiveTotalWeights => {
                "weights must add up to a positive number".to_owned()
            },
        }
    }
}

/// The sum of the first `n` weights.
pub open spec fn prefix_total(weights: Seq<u64>, n: int) -> int
    decreases n,
{
    if n <= 0 {
        0
    } else {
        prefix_total(weights, n - 1) + weights[n - 1]
    }
}

/// The sum of all weights.
pub open spec fn total_weight(weights: Seq<u64>) -> int {
    prefix_total(weights, weights.len() as int)
}

/// Whether `cum` holds, at each index, the sum of the weights up to and including
/// that index.
pub open spec fn running_totals(weights: Seq<u64>, cum: Seq<u128>) -> bool {
    &&& cum.len() == weights.len()
    &&& forall|i: int| 0 <= i < cum.len() ==> #[trigger] cum[i] == prefix_total(weights, i + 1)
}

/// Whether `index` is the first place at which the running total reaches `point`.
pub open spec fn is_choice(cum: Seq<u128>, point: u128, index: int) -> bool {
    &&& 0 <= index < cum.len()
    &&& cum[index] >= point
    &&& forall|j: int| 0 <= j < index ==> cum[j] < point
}

/// The weights of a list of weighted tags.
pub open spec fn weights_of(items: Seq<(u64, Box<dyn Tag>)>) -> Seq<u64> {
    Seq::new(items.len(), |i: int| items[i].0)
}

/// The sums of the weights grow with the number of weights summed.
pub proof fn lemma_prefix_total_grows(weights: Seq<u64>, a: int, b: int)
    requires
        0 <= a <= b,
    ensures
        0 <= prefix_total(weights, a) <= prefix_total(weights, b),
    decreases b,
{
    if a < b {
        lemma_prefix_total_grows(weights, a, b - 1);
    } else if a > 0 {
        lemma_prefix_total_grows(weights, a - 1, a - 1);
    }
}

/// The first `n` weights add up to `n` times the greatest weight at most.
pub proof fn lemma_prefix_total_bounded(weights: Seq<u64>, n: int)
    requires
        0 <= n <= weights.len(),
    ensures
        0 <= prefix_total(weights, n) <= n * 0xffff_ffff_ffff_ffff,
    decreases n,
{
    if n > 0 {
        lemma_prefix_total_bounded(weights, n - 1);
    }
}

/// A choice made with a draw above zero, or among weights of which the first is
/// above zero, has a weight above zero.
pub proof fn lemma_choice_has_weight(weights: Seq<u64>, cum: Seq<u128>, point: u128, index: int)
    requires
        running_totals(weights, cum),
        is_choice(cum, point, index),
        point > 0 || weights[0] > 0,
    ensures
        weights[index] > 0,
{
    assert(cum[index] == prefix_total(weights, index + 1));
    if index > 0 {
        assert(cum[index - 1] == prefix_total(weights, index));
    } else {
        assert(prefix_total(weights, 0) == 0);
    }
}

/// Selects any of its tags, each with a probability in proportion to its weight.
pub struct Weights {
    items: Vec<(u64, Box<dyn Tag>)>,
    cum_weights: Vec<u128>,
    cum_total: u128,
}

impl Weights {
    #[verifier::type_invariant]
    spec fn consistent(&self) -> bool {
        &&& self.items.len() > 0
        &&& running_totals(weights_of(self.items@), self.cum_weights@)
        &&& self.cum_total == total_weight(weights_of(self.items@))
        &&& self.cum_total > 0
    }

    /// The weighted tags to choose from.
    pub closed spec fn items(&self) -> Seq<(u64, Box<dyn Tag>)> {
        self.items@
    }

    /// The running totals of the weights.
    pub closed spec fn cumulative(&self) -> Seq<u128> {
        self.cum_weights@
    }

    /// Fails on an empty list and on weights that add up to zero, and on nothing
    /// else.
    pub fn new(items: Vec<(u64, Box<dyn Tag>)>) -> (r: Result<Self, WeightsError>)
        ensures
            match r {
                Ok(made) => {
                    &&& items.len() > 0
                    &&& total_weight(weights_of(items@)) > 0
                    &&& made.items() == items@
                    &&& running_totals(weights_of(items@), made.cumulative())
                },
                Err(WeightsError::ZeroItems) => items.len() == 0,
                Err(WeightsError::NonPositiveTotalWeights) => {
                    items.len() > 0 && total_weight(weights_of(items@)) == 0
                },
            },
    {
        let mut weights: Vec<u64> = Vec::new();
        let mut i: usize = 0;
        while i < items.len()
            invariant
                i <= items.len(),
                weights@ == weights_of(items@).take(i as int),
            decreases items.len() - i,
        {
            weights.push(items[i].0);
            proof {
                assert(weights@ == weights_of(items@).take(i as int + 1));
            }
            i = i + 1;
        }
        proof {
            assert(weights@ == weights_of(items@));
        }
        match Self::cum_weights(weights) {
            Ok((cum_total, cum_weights)) => Ok(Self { items, cum_weights, cum_total }),
            Err(e) => Err(e),
        }
    }

    pub fn new_boxed(items: Vec<(u64, Box<dyn Tag>)>) -> (r: Result<Box<Self>, WeightsError>)
        ensures
            match r {
                Ok(made) => {
                    &&& items.len() > 0
                    &&& total_weight(weights_of(items@)) > 0
                    &&& made.items() == items@
                    &&& running_totals(weights_of(items@), made.cumulative())
                },
                Err(WeightsError::ZeroItems) => items.len() == 0,
                Err(WeightsError::NonPositiveTotalWeights) => {
                    items.len() > 0 && total_weight(weights_of(items@)) == 0
                },
            },
    {
        match Self::new(items) {
            Ok(made) => Ok(Box::new(made)),
            Err(e) => Err(e),
        }
    }

    /// The running totals of `weights` and, before them, their last: the sum of
    /// all weights. The sums are held in 128 bits, which no list of weights of 64
    /// bits can exceed.
    pub fn cum_weights(weights: Vec<u64>) -> (r: Result<(u128, Vec<u128>), WeightsError>)
        ensures
            match r {
                Ok((total, cum)) => {
                    &&& weights.len() > 0
                    &&& total > 0
                    &&& total == total_weight(weights@)
                    &&& running_totals(weights@, cum@)
                },
                Err(WeightsError::ZeroItems) => weights.len() == 0,
                Err(WeightsError::NonPositiveTotalWeights) => {
                    weights.len() > 0 && total_weight(weights@) == 0
                },
            },
    {
        if weights.len() == 0 {
            return Err(WeightsError::ZeroItems);
        }
        let mut cum: Vec<u128> = Vec::new();
        let mut total: u128 = 0;
        let mut i: usize = 0;
        while i < weights.len()
            invariant
                i <= weights.len(),
                cum.len() == i,
                total == prefix_total(weights@, i as int),
                forall|j: int| 0 <= j < i ==> #[trigger] cum@[j] == prefix_total(weights@, j + 1),
            decreases weights.len() - i,
        {
            proof {
                lemma_prefix_total_bounded(weights@, i as int);
            }
            total = total + weights[i] as u128;
            cum.push(total);
            i = i + 1;
        }
        if total == 0 {
            return Err(WeightsError::NonPositiveTotalWeights);
        }
        Ok((total, cum))
    }

    /// The first place at which the running total reaches `point`.
    pub fn choice_for(&self, point: u128) -> (r: usize)
        requires
            point <= self.cumulative().last(),
        ensures
            is_choice(self.cumulative(), point, r as int),
            r < self.items().len(),
    {
        proof {
            use_type_invariant(self);
        }
        let mut low: usize = 0;
        let mut high: usize = self.cum_weights.len() - 1;
        while low < high
            invariant
                low <= high < self.cum_weights.len(),
                self.cum_weights@[high as int] >= point,
                forall|j: int| 0 <= j < low ==> self.cum_weights@[j] < point,
                running_totals(weights_of(self.items@), self.cum_weights@),
            decreases high - low,
        {
            let middle = low + (high - low) / 2;
            if self.cum_weights[middle] < point {
                proof {
                    assert forall|j: int| 0 <= j <= middle implies self.cum_weights@[j]
                        < point by {
                        lemma_prefix_total_grows(
                            weights_of(self.items@),
                            j + 1,
                            middle as int + 1,
                        );
                    }
                }
                low = middle + 1;
            } else {
                high = middle;
            }
        }
        low
    }

    /// A place among the tags, at random: each comes up in proportion to its
    /// weight.
    pub fn random_choice(&self) -> (r: usize)
        ensures
            exists|point: u128| #[trigger] is_choice(self.cumulative(), point, r as int),
            r < self.items().len(),
    {
        proof {
            use_type_invariant(self);
        }
        let random_point = random_point(self.cum_total);

        self.choice_for(random_point)
    }
}

impl Tag for Weights {
    open spec fn produces(&self, m: MatchView, out: Seq<char>) -> bool {
        exists|point: u128, i: int|
            #![trigger is_choice(self.cumulative(), point, i)]
            is_choice(self.cumulative(), point, i) && i < self.items().len()
                && self.items()[i].1.produces(m, out)
    }

    fn generate(&self, m: &Match) -> (r: String) {
        let choice = self.random_choice();
        let r = self.items[choice].1.generate(m);
        proof {
            let point = choose|point: u128| #[trigger]
                is_choice(self.cumulative(), point, choice as int);
            assert(is_choice(self.cumulative(), point, choice as int));
        }
        r
    }
}

/// Uppercases what the inner tag gives.
// The inner tag is held behind a second box. A boxed trait object that moves into a
// place of its own type is unsized anew on the way, and the verifier no longer
// takes it for the value that came in; boxed once more, it moves as it is.
pub struct Upper(Box<Box<dyn Tag>>);

impl Upper {
    /// Whether the inner tag may give `given` for the match `m`.
    pub closed spec fn inner_gives(&self, m: MatchView, given: Seq<char>) -> bool {
        self.0.produces(m, given)
    }

    pub fn new(inner: Box<dyn Tag>) -> (r: Self)
        ensures
            forall|m: MatchView, given: Seq<char>|
                r.inner_gives(m, given) == #[trigger] inner.produces(m, given),
    {
        let held = Box::new(inner);
        Self(held)
    }

    pub fn new_boxed(inner: Box<dyn Tag>) -> (r: Box<Self>)
        ensures
            forall|m: MatchView, given: Seq<char>|
                r.inner_gives(m, given) == #[trigger] inner.produces(m, given),
    {
        let held = Box::new(inner);
        Box::new(Self(held))
    }
}

impl Tag for Upper {
    open spec fn produces(&self, m: MatchView, out: Seq<char>) -> bool {
        exists|given: Seq<char>|
            (#[trigger] self.inner_gives(m, given)) && out == uppercased(given)
    }

    fn generate(&self, m: &Match) -> (r: String) {
        let given = self.0.generate(m);
        assert(self.inner_gives(m@, given@));
        given.as_str().to_uppercase()
    }
}

/// Lowercases what the inner tag gives.
// The inner tag is held behind a second box, as in `Upper`.
pub struct Lower(Box<Box<dyn Tag>>);

impl Lower {
    /// Whether the inner tag may give `given` for the match `m`.
    pub closed spec fn inner_gives(&self, m: MatchView, given: Seq<char>) -> bool {
        self.0.produces(m, given)
    }

    pub fn new(inner: Box<dyn Tag>) -> (r: Self)
        ensures
            forall|m: MatchView, given: Seq<char>|
                r.inner_gives(m, given) == #[trigger] inner.produces(m, given),
    {
        let held = Box::new(inner);
        Self(held)
    }

    pub fn new_boxed(inner: Box<dyn Tag>) -> (r: Box<Self>)
        ensures
            forall|m: MatchView, given: Seq<char>|
                r.inner_gives(m, given) == #[trigger] inner.produces(m, given),
    {
        let held = Box::new(inner);
        Box::new(Self(held))
    }
}

impl Tag for Lower {
    open spec fn produces(&self, m: MatchView, out: Seq<char>) -> bool {
        exists|given: Seq<char>|
            (#[trigger] self.inner_gives(m, given)) && out == lowercased(given)
    }

    fn generate(&self, m: &Match) -> (r: String) {
        let given = self.0.generate(m);
        assert(self.inner_gives(m@, given@));
        given.as_str().to_lowercase()
    }
}

/// Adds what the left and the right tag give together.
// Both tags are held behind a second box, as in `Upper`.
pub struct Concat((Box<Box<dyn Tag>>, Box<Box<dyn Tag>>));

impl Concat {
    /// Whether the left tag may give `given` for the match `m`.
    pub closed spec fn left_gives(&self, m: MatchView, given: Seq<char>) -> bool {
        self.0.0.produces(m, given)
    }

    /// Whether the right tag may give `given` for the match `m`.
    pub closed spec fn right_gives(&self, m: MatchView, given: Seq<char>) -> bool {
        self.0.1.produces(m, given)
    }

    pub fn new(left: Box<dyn Tag>, right: Box<dyn Tag>) -> (r: Self)
        ensures
            forall|m: MatchView, given: Seq<char>|
                r.left_gives(m, given) == #[trigger] left.produces(m, given),
            forall|m: MatchView, given: Seq<char>|
                r.right_gives(m, given) == #[trigger] right.produces(m, given),
    {
        let first = Box::new(left);
        let second = Box::new(right);
        Self((first, second))
    }

    pub fn new_boxed(left: Box<dyn Tag>, right: Box<dyn Tag>) -> (r: Box<Self>)
        ensures
            forall|m: MatchView, given: Seq<char>|
                r.left_gives(m, given) == #[trigger] left.produces(m, given),
            forall|m: MatchView, given: Seq<char>|
                r.right_gives(m, given) == #[trigger] right.produces(m, given),
    {
        let first = Box::new(left);
        let second = Box::new(right);
        Box::new(Self((first, second)))
    }
}

impl Tag for Concat {
    open spec fn produces(&self, m: MatchView, out: Seq<char>) -> bool {
        exists|first: Seq<char>, second: Seq<char>|
            #![trigger self.left_gives(m, first), self.right_gives(m, second)]
            self.left_gives(m, first) && self.right_gives(m, second) && out == first + second
    }

    fn generate(&self, m: &Match) -> (r: String) {
        let mut text = self.0.0.generate(m);
        let second = self.0.1.generate(m);
        assert(self.left_gives(m@, text@) && self.right_gives(m@, second@));
        text.append(second.as_str());
        text
    }
}

} // verus!
