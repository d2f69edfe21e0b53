//! Laying one list of keyed entries over another: an entry whose key the base
//! has takes the place of the base's entry, an entry with a new key goes to the end.

use vstd::prelude::*;

verus! {

/// The keys of `entries`.
pub open spec fn keys_of<V>(entries: Seq<(String, V)>) -> Seq<Seq<char>> {
    Seq::new(entries.len(), |i: int| entries[i].0@)
}

/// The first place among the first `limit` entries that has the key `key`.
pub open spec fn position<V>(entries: Seq<(Seq<char>, V)>, limit: int, key: Seq<char>) -> Option<
    int,
>
    decreases limit,
{
    if limit <= 0 {
        None
    } else {
        match position(entries, limit - 1, key) {
            Some(i) => Some(i),
            None => if entries[limit - 1].0 == key {
                Some(limit - 1)
            } else {
                None
            },
        }
    }
}

/// The last place among the first `limit` entries that has the key `key`.
pub open spec fn last_position<V>(
    entries: Seq<(Seq<char>, V)>,
    limit: int,
    key: Seq<char>,
) -> Option<int>
    decreases limit,
{
    if limit <= 0 {
        None
    } else if entries[limit - 1].0 == key {
        Some(limit - 1)
    } else {
        last_position(entries, limit - 1, key)
    }
}

/// Whether the entry at `i` is the one that an incoming entry with the same key
/// replaces: the first of the base with its key.
pub open spec fn leads<V>(base: Seq<(Seq<char>, V)>, i: int) -> bool {
    position(base, base.len() as int, base[i].0) == Some(i)
}

/// The entry at `i` of the base once the first `k` entries of `extra` have been
/// laid over it: where an entry of `extra` has its key, and it is the first of
/// the base with that key, the value of the last such entry takes its place.
pub open spec fn overlaid<V>(
    base: Seq<(Seq<char>, V)>,
    extra: Seq<(Seq<char>, V)>,
    k: int,
    i: int,
) -> (Seq<char>, V) {
    match last_position(extra, k, base[i].0) {
        Some(j) => if leads(base, i) {
            (base[i].0, extra[j].1)
        } else {
            base[i]
        },
        None => base[i],
    }
}

/// Those of the first `k` entries of `extra` whose key the base lacks, in the
/// order in which they come.
pub open spec fn newcomers<V>(
    base: Seq<(Seq<char>, V)>,
    extra: Seq<(Seq<char>, V)>,
    k: int,
) -> Seq<(Seq<char>, V)>
    decreases k,
{
    if k <= 0 {
        Seq::empty()
    } else if position(base, base.len() as int, extra[k - 1].0) is None {
        newcomers(base, extra, k - 1).push(extra[k - 1])
    } else {
        newcomers(base, extra, k - 1)
    }
}

/// The base with the first `k` entries of `extra` laid over it: the entries of
/// the base in their places, each with the value that `extra` gives it if it
/// gives one, and behind them the newcomers.
pub open spec fn merged_upto<V>(
    base: Seq<(Seq<char>, V)>,
    extra: Seq<(Seq<char>, V)>,
    k: int,
) -> Seq<(Seq<char>, V)> {
    Seq::new(base.len(), |i: int| overlaid(base, extra, k, i)) + newcomers(base, extra, k)
}

/// The base with all of `extra` laid over it.
pub open spec fn merged<V>(base: Seq<(Seq<char>, V)>, extra: Seq<(Seq<char>, V)>) -> Seq<
    (Seq<char>, V),
> {
    merged_upto(base, extra, extra.len() as int)
}

/// What [`position`] finds is the first entry with the key; where it finds none,
/// no entry has the key.
pub proof fn lemma_position<V>(entries: Seq<(Seq<char>, V)>, limit: int, key: Seq<char>)
    requires
        0 <= limit <= entries.len(),
    ensures
        match position(entries, limit, key) {
            Some(i) => {
                &&& 0 <= i < limit
                &&& entries[i].0 == key
                &&& forall|j: int| 0 <= j < i ==> entries[j].0 != key
            },
            None => forall|j: int| 0 <= j < limit ==> entries[j].0 != key,
        },
    decreases limit,
{
    if limit > 0 {
        lemma_position(entries, limit - 1, key);
    }
}

/// What [`last_position`] finds is the last entry with the key; where it finds
/// none, no entry has the key.
pub proof fn lemma_last_position<V>(entries: Seq<(Seq<char>, V)>, limit: int, key: Seq<char>)
    requires
        0 <= limit <= entries.len(),
    ensures
        match last_position(entries, limit, key) {
            Some(i) => {
                &&& 0 <= i < limit
                &&& entries[i].0 == key
                &&& forall|j: int| i < j < limit ==> entries[j].0 != key
            },
            None => forall|j: int| 0 <= j < limit ==> entries[j].0 != key,
        },
    decreases limit,
{
    if limit > 0 {
        lemma_last_position(entries, limit - 1, key);
    }
}

/// Laying one more entry over the base: if the base has its key, its value goes
/// to the first place with that key and nothing else changes; if not, the entry
/// goes to the end.
pub proof fn lemma_merge_step<V>(base: Seq<(Seq<char>, V)>, extra: Seq<(Seq<char>, V)>, k: int)
    requires
        0 <= k < extra.len(),
    ensures
        merged_upto(base, extra, k).len() >= base.len(),
        merged_upto(base, extra, k + 1) == match position(
            base,
            base.len() as int,
            extra[k].0,
        ) {
            Some(i) => merged_upto(base, extra, k).update(i, (base[i].0, extra[k].1)),
            None => merged_upto(base, extra, k).push(extra[k]),
        },
{
    let before = merged_upto(base, extra, k);
    let after = merged_upto(base, extra, k + 1);
    let key = extra[k].0;
    lemma_position(base, base.len() as int, key);
    match position(base, base.len() as int, key) {
        Some(i) => {
            assert(after =~= before.update(i, (base[i].0, extra[k].1))) by {
                assert forall|x: int| 0 <= x < base.len() implies #[trigger] after[x]
                    == before.update(i, (base[i].0, extra[k].1))[x] by {
                    if base[x].0 == key && x != i {
                        lemma_position(base, base.len() as int, base[x].0);
                    }
                }
            }
        },
        None => {
            assert(after =~= before.push(extra[k]));
        },
    }
}

/// Laying entries over a base moves no entry of the base and changes no key of
/// it: the merged list begins with as many entries as the base has, key by key
/// the same, and an entry whose key `extra` does not have keeps its value.
pub proof fn lemma_merge_keeps_places<V>(
    base: Seq<(Seq<char>, V)>,
    extra: Seq<(Seq<char>, V)>,
    i: int,
)
    requires
        0 <= i < base.len(),
    ensures
        merged(base, extra).len() >= base.len(),
        merged(base, extra)[i].0 == base[i].0,
        last_position(extra, extra.len() as int, base[i].0) is None ==> merged(base, extra)[i]
            == base[i],
        !leads(base, i) ==> merged(base, extra)[i] == base[i],
        leads(base, i) ==> match last_position(extra, extra.len() as int, base[i].0) {
            Some(j) => merged(base, extra)[i].1 == extra[j].1,
            None => true,
        },
{
}

/// Behind the entries of the base, the merged list holds the entries of `extra`
/// whose key the base lacks, in the order in which they came.
pub proof fn lemma_merge_appends_in_order<V>(
    base: Seq<(Seq<char>, V)>,
    extra: Seq<(Seq<char>, V)>,
)
    ensures
        merged(base, extra).skip(base.len() as int) == newcomers(
            base,
            extra,
            extra.len() as int,
        ),
{
    assert(merged(base, extra).skip(base.len() as int) =~= newcomers(
        base,
        extra,
        extra.len() as int,
    ));
}

/// The first of the first `limit` keys that is `key`.
pub fn first_with_key(keys: &Vec<String>, limit: usize, key: &String) -> (r: Option<usize>)
    requires
        limit <= keys.len(),
    ensures
        match r {
            Some(i) => {
                &&& i < limit
                &&& keys@[i as int]@ == key@
                &&& forall|j: int| 0 <= j < i ==> (#[trigger] keys@[j])@ != key@
            },
            None => forall|j: int| 0 <= j < limit ==> (#[trigger] keys@[j])@ != key@,
        },
{
    let mut i: usize = 0;
    while i < limit
        invariant
            i <= limit <= keys.len(),
            forall|j: int| 0 <= j < i ==> (#[trigger] keys@[j])@ != key@,
        decreases limit - i,
    {
        if keys[i] == *key {
            return Some(i);
        }
        i = i + 1;
    }
    None
}

} // verus!
