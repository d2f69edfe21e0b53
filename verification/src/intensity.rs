//! One level of an accent: named passes that are applied one after another.

use vstd::prelude::*;
use crate::merge::{first_with_key, lemma_position, merged, position};
use crate::pass::{compiles, keys, refusal, scan, CreationError, Pass, SharedTag};

verus! {

/// The rules of a pass: each pattern with its tag.
pub type Rules = Seq<(Seq<char>, SharedTag)>;

/// The passes of a level: each name with the rules of its pass.
pub type Entries = Seq<(Seq<char>, Rules)>;

/// What a level is to the contracts: its number and its named passes.
pub struct IntensityView {
    pub level: u64,
    pub entries: Entries,
}

/// The entries that `names` and `passes` make, pair by pair.
pub open spec fn named(names: Seq<String>, passes: Seq<Pass>) -> Entries {
    Seq::new(names.len(), |i: int| (names[i]@, passes[i].rules()))
}

/// The entries that a list of named passes makes.
pub open spec fn entries_of(passes: Seq<(String, Pass)>) -> Entries {
    Seq::new(passes.len(), |i: int| (passes[i].0@, passes[i].1.rules()))
}

/// One step of extending a level: a pass that comes under a name that the level
/// being extended has is laid over the pass of that name, which keeps its place;
/// a pass under a new name goes to the end. The step fails where the rules laid
/// together cannot be made into a pass.
pub open spec fn extend_step(current: Entries, base_len: int, incoming: (Seq<char>, Rules)) -> Result<
    Entries,
    CreationError,
> {
    match position(current, base_len, incoming.0) {
        Some(i) => {
            let rules = merged(current[i].1, incoming.1);
            if compiles(keys(rules)) {
                Ok(current.update(i, (current[i].0, rules)))
            } else {
                Err(refusal(keys(rules)))
            }
        },
        None => Ok(current.push(incoming)),
    }
}

/// The entries of `base` extended by the first `k` of `incoming`, one after
/// another, or the first failure on the way.
pub open spec fn extended(base: Entries, incoming: Entries, k: int) -> Result<
    Entries,
    CreationError,
>
    decreases k,
{
    if k <= 0 {
        Ok(base)
    } else {
        match extended(base, incoming, k - 1) {
            Ok(current) => extend_step(current, base.len() as int, incoming[k - 1]),
            Err(e) => Err(e),
        }
    }
}

/// Whether `out` is a text that the first `n` of `passes` may make of `text`,
/// each working on what the one before it made.
pub open spec fn carries(passes: Seq<Pass>, n: int, text: Seq<char>, out: Seq<char>) -> bool
    decreases n,
{
    if n <= 0 {
        out == text
    } else {
        exists|mid: Seq<char>|
            carries(passes, n - 1, text, mid) && #[trigger] hands_on(passes, n, mid, out)
    }
}

/// Whether the `n`th of `passes` may make `out` of `mid`.
pub open spec fn hands_on(passes: Seq<Pass>, n: int, mid: Seq<char>, out: Seq<char>) -> bool {
    passes[n - 1].rewrites(mid, out)
}

/// Holds passes under their names and applies them in order.
pub struct Intensity {
    level: u64,
    names: Vec<String>,
    passes: Vec<Pass>,
}

impl View for Intensity {
    type V = IntensityView;

    closed spec fn view(&self) -> IntensityView {
        IntensityView { level: self.level, entries: named(self.names@, self.passes@) }
    }
}

impl Intensity {
    #[verifier::type_invariant]
    pub(crate) open spec fn sound(&self) -> bool {
        self.wf()
    }

    /// Every pass has its name and is a pass as [`Pass::new`] makes it.
    pub closed spec fn wf(&self) -> bool {
        &&& self.names.len() == self.passes.len()
        &&& forall|i: int| 0 <= i < self.passes.len() ==> (#[trigger] self.passes[i]).wf()
    }

    /// The passes, in the order in which they are applied.
    pub closed spec fn pass_list(&self) -> Seq<Pass> {
        self.passes@
    }

    /// Whether `out` is a text that the level may make of `text`.
    pub open spec fn rewrites(&self, text: Seq<char>, out: Seq<char>) -> bool {
        carries(self.pass_list(), self.pass_list().len() as int, text, out)
    }

    /// The entries of a level are its passes under their names.
    pub proof fn lemma_entries(&self)
        requires
            self.wf(),
        ensures
            self@.entries.len() == self.pass_list().len(),
            forall|i: int|
                0 <= i < self.pass_list().len() ==> {
                    &&& (#[trigger] self.pass_list()[i]).wf()
                    &&& self@.entries[i].1 == self.pass_list()[i].rules()
                },
    {
    }

    /// Creates a level from passes and their names.
    pub fn new(level: u64, passes: Vec<(String, Pass)>) -> (r: Self)
        ensures
            r.wf(),
            r@.level == level,
            r@.entries == entries_of(passes@),
    {
        let mut names: Vec<String> = Vec::new();
        let mut list: Vec<Pass> = Vec::new();
        let ghost given = passes@;
        for entry in iter: passes
            invariant
                iter.seq() == given,
                names.len() == iter.index(),
                list.len() == iter.index(),
                forall|i: int| 0 <= i < iter.index() ==> #[trigger] names@[i]@ == given[i].0@,
                forall|i: int|
                    0 <= i < iter.index() ==> (#[trigger] list@[i]).wf() && list@[i].rules()
                        == given[i].1.rules(),
        {
            let (name, pass) = entry;
            proof {
                use_type_invariant(&pass);
            }
            names.push(name);
            list.push(pass);
        }
        proof {
            assert(named(names@, list@) =~= entries_of(given));
        }
        Self { level, names, passes: list }
    }

    /// The number of the level.
    pub fn level(&self) -> (r: u64)
        ensures
            r == self@.level,
    {
        self.level
    }

    /// The names of the passes, in the order of the passes.
    pub fn names(&self) -> (r: &Vec<String>)
        ensures
            r@.len() == self@.entries.len(),
            forall|i: int| 0 <= i < r@.len() ==> (#[trigger] r@[i])@ == self@.entries[i].0,
    {
        &self.names
    }

    /// The passes, in the order in which they are applied.
    pub fn passes(&self) -> (r: &Vec<Pass>)
        ensures
            r@ == self.pass_list(),
    {
        &self.passes
    }

    /// A level that has `passes` and nothing of this one.
    pub fn replace(&self, level: u64, passes: Vec<(String, Pass)>) -> (r: Self)
        ensures
            r.wf(),
            r@.level == level,
            r@.entries == entries_of(passes@),
    {
        Self::new(level, passes)
    }

    /// Lays `passes` over the passes of this level: a pass under a name that this
    /// level has extends the pass of that name, a pass under a new name goes to
    /// the end. The outcome is a new level; this one stays as it is.
    pub fn extend(&self, level: u64, passes: Vec<(String, Pass)>) -> (r: Result<
        Self,
        CreationError,
    >)
        ensures
            match r {
                Ok(made) => {
                    &&& made.wf()
                    &&& made@.level == level
                    &&& extended(self@.entries, entries_of(passes@), passes.len() as int) == Ok::<
                        Entries,
                        CreationError,
                    >(made@.entries)
                },
                Err(e) => extended(self@.entries, entries_of(passes@), passes.len() as int)
                    == Err::<Entries, CreationError>(e),
            },
    {
        proof {
            use_type_invariant(self);
        }
        let base_len = self.names.len();
        let ghost base = self@.entries;
        let ghost given = passes@;
        let ghost incoming = entries_of(passes@);

        let mut names: Vec<String> = Vec::new();
        let mut list: Vec<Pass> = Vec::new();
        let mut i: usize = 0;
        while i < base_len
            invariant
                i <= base_len == self.names.len() == self.passes.len(),
                self.wf(),
                names.len() == i,
                list.len() == i,
                forall|j: int| 0 <= j < i ==> #[trigger] names@[j]@ == self.names@[j]@,
                forall|j: int|
                    0 <= j < i ==> (#[trigger] list@[j]).wf() && list@[j].rules()
                        == self.passes@[j].rules(),
            decreases base_len - i,
        {
            names.push(self.names[i].clone());
            list.push(self.passes[i].clone());
            i = i + 1;
        }
        proof {
            assert(named(names@, list@) =~= base);
        }
        for entry in iter: passes
            invariant
                iter.seq() == given,
                given == passes@,
                base == self@.entries,
                incoming == entries_of(given),
                base_len == base.len(),
                names.len() == list.len(),
                names.len() >= base_len,
                forall|j: int| 0 <= j < list.len() ==> (#[trigger] list@[j]).wf(),
                extended(base, incoming, iter.index() as int) == Ok::<Entries, CreationError>(
                    named(names@, list@),
                ),
        {
            let ghost current = named(names@, list@);
            let ghost k = iter.index() as int;
            let (new_name, new_pass) = entry;
            proof {
                use_type_invariant(&new_pass);
                assert(incoming[k] == (new_name@, new_pass.rules()));
                lemma_position(current, base_len as int, new_name@);
            }
            let found = first_with_key(&names, base_len, &new_name);
            proof {
                match found {
                    Some(place) => {
                        assert(current[place as int].0 == names@[place as int]@);
                    },
                    None => {},
                }
                match position(current, base_len as int, new_name@) {
                    Some(x) => {
                        assert(current[x].0 == names@[x]@);
                    },
                    None => {},
                }
                assert(match found {
                    Some(place) => position(current, base_len as int, new_name@) == Some(
                        place as int,
                    ),
                    None => position(current, base_len as int, new_name@) is None,
                });
            }
            match found {
                Some(place) => {
                    match list[place].extend(new_pass) {
                        Ok(pass) => {
                            list.set(place, pass);
                            proof {
                                assert(named(names@, list@) =~= current.update(
                                    place as int,
                                    (current[place as int].0, pass.rules()),
                                ));
                            }
                        },
                        Err(e) => {
                            proof {
                                let rules = merged(current[place as int].1, incoming[k].1);
                                assert(!compiles(keys(rules)));
                                assert(refusal(keys(rules)) == e);
                                assert(extended(base, incoming, k + 1) == extend_step(
                                    current,
                                    base_len as int,
                                    incoming[k],
                                ));
                                lemma_extended_fails(base, incoming, k + 1, given.len() as int);
                            }
                            return Err(e);
                        },
                    }
                },
                None => {
                    names.push(new_name);
                    list.push(new_pass);
                    proof {
                        assert(named(names@, list@) =~= current.push(incoming[k]));
                    }
                },
            }
        }
        Ok(Self { level, names, passes: list })
    }

    /// Runs the passes in order, each on what the one before it made of the text.
    pub fn apply(&self, text: &str) -> (r: String)
        ensures
            self.rewrites(text@, r@),
    {
        let mut current = text.to_owned();
        let mut i: usize = 0;
        while i < self.passes.len()
            invariant
                i <= self.passes.len(),
                carries(self.passes@, i as int, text@, current@),
            decreases self.passes.len() - i,
        {
            let ghost before = current@;
            let next = self.passes[i].apply(current.as_str());
            current = next;
            proof {
                assert(carries(self.passes@, i as int, text@, before));
                assert(hands_on(self.passes@, i as int + 1, before, current@));
            }
            i = i + 1;
        }
        current
    }
}

/// Once extending has failed, it has failed for good, and in the same way.
pub proof fn lemma_extended_fails(base: Entries, incoming: Entries, k: int, n: int)
    requires
        k <= n,
        extended(base, incoming, k) is Err,
    ensures
        extended(base, incoming, n) == extended(base, incoming, k),
    decreases n - k,
{
    if k < n {
        lemma_extended_fails(base, incoming, k, n - 1);
    }
}

/// Extending moves no pass of the base and renames none: what comes of it begins
/// with as many passes as the base has, under the names that the base has them
/// under.
pub proof fn lemma_extended_keeps_names(base: Entries, incoming: Entries, k: int, i: int)
    requires
        0 <= k <= incoming.len(),
        0 <= i < base.len(),
        extended(base, incoming, k) is Ok,
    ensures
        extended(base, incoming, k)->Ok_0.len() >= base.len(),
        extended(base, incoming, k)->Ok_0[i].0 == base[i].0,
    decreases k,
{
    if k > 0 {
        let before = extended(base, incoming, k - 1)->Ok_0;
        lemma_extended_keeps_names(base, incoming, k - 1, i);
        lemma_position(before, base.len() as int, incoming[k - 1].0);
    }
}

/// A level whose passes find nothing in a text leaves the text as it is.
pub proof fn lemma_untouched(passes: Seq<Pass>, n: int, text: Seq<char>, out: Seq<char>)
    requires
        0 <= n <= passes.len(),
        forall|i: int| 0 <= i < n ==> scan((#[trigger] passes[i]).regex(), text).len() == 0,
        carries(passes, n, text, out),
    ensures
        out == text,
    decreases n,
{
    if n > 0 {
        let mid = choose|mid: Seq<char>|
            carries(passes, n - 1, text, mid) && #[trigger] hands_on(passes, n, mid, out);
        lemma_untouched(passes, n - 1, text, mid);
        crate::pass::lemma_no_match(passes[n - 1], text, out);
    }
}

} // verus!
