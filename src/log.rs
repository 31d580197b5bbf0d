use vstd::prelude::*;

use crate::command::Command;

verus! {

/// The byte offset at which record `i` of `log` starts: the sizes of the records before it.
pub open spec fn offset_of(log: Seq<(Command, nat)>, i: int) -> nat
    decreases i,
{
    if i <= 0 {
        0
    } else {
        offset_of(log, i - 1) + log[i - 1].1
    }
}

/// The size in bytes of the whole log.
pub open spec fn log_size(log: Seq<(Command, nat)>) -> nat {
    offset_of(log, log.len() as int)
}

/// For each key that some `Put` installs and no later `Rm` removes,
/// the number of its last `Put` record.
pub open spec fn live(log: Seq<(Command, nat)>) -> Map<Seq<char>, int>
    decreases log.len(),
{
    if log.len() == 0 {
        Map::empty()
    } else {
        let prev = live(log.drop_last());
        match log.last().0 {
            Command::Put { key, .. } => prev.insert(key@, log.len() - 1),
            Command::Rm { key } => prev.remove(key@),
            _ => prev,
        }
    }
}

/// Whether `c` is a `Put` of key `k`.
pub open spec fn puts_key(c: Command, k: Seq<char>) -> bool {
    c matches Command::Put { key, .. } && key@ == k
}

/// The value that a `Put` installs.
pub open spec fn put_value(c: Command) -> Seq<char> {
    match c {
        Command::Put { value, .. } => value@,
        _ => Seq::empty(),
    }
}

/// The key/value contents that replaying `log` from its start produces.
pub open spec fn contents(log: Seq<(Command, nat)>) -> Map<Seq<char>, Seq<char>> {
    Map::new(|k: Seq<char>| live(log).contains_key(k), |k: Seq<char>| put_value(log[live(log)[k]].0))
}

/// Each live key points at a `Put` of that key within the log.
pub proof fn lemma_live_points_to_put(log: Seq<(Command, nat)>)
    ensures
        forall|k: Seq<char>| #[trigger]
            live(log).contains_key(k) ==> 0 <= live(log)[k] < log.len() && puts_key(
                log[live(log)[k]].0,
                k,
            ),
    decreases log.len(),
{
    if log.len() > 0 {
        let prev = log.drop_last();
        lemma_live_points_to_put(prev);
        assert forall|i: int| 0 <= i < prev.len() implies prev[i] == log[i] by {}
        assert forall|k: Seq<char>| #[trigger] live(log).contains_key(k) implies 0 <= live(log)[k]
            < log.len() && puts_key(log[live(log)[k]].0, k) by {
            if live(prev).contains_key(k) {
                assert(prev[live(prev)[k]] == log[live(prev)[k]]);
            }
        }
    }
}

/// Appending a record moves no earlier offset.
pub proof fn lemma_offset_prefix(log: Seq<(Command, nat)>, r: (Command, nat), i: int)
    requires
        0 <= i <= log.len(),
    ensures
        offset_of(log.push(r), i) == offset_of(log, i),
    decreases i,
{
    if i > 0 {
        lemma_offset_prefix(log, r, i - 1);
    }
}

/// Offsets grow with the record number.
pub proof fn lemma_offset_monotonic(log: Seq<(Command, nat)>, i: int, j: int)
    requires
        0 <= i <= j,
    ensures
        offset_of(log, i) <= offset_of(log, j),
    decreases j,
{
    if i < j {
        lemma_offset_monotonic(log, i, j - 1);
    }
}

/// The key a command names.
pub open spec fn key_of(c: Command) -> Seq<char> {
    match c {
        Command::Put { key, .. } => key@,
        Command::Get { key } => key@,
        Command::Rm { key } => key@,
        Command::Open { path } => path@,
    }
}

/// In a log of `Put`s of pairwise distinct keys every record is live, and no other key is.
pub proof fn lemma_live_of_distinct_puts(log: Seq<(Command, nat)>)
    requires
        forall|j: int| 0 <= j < log.len() ==> #[trigger] log[j].0 is Put,
        forall|a: int, b: int|
            0 <= a < b < log.len() ==> key_of(#[trigger] log[a].0) != key_of(#[trigger] log[b].0),
    ensures
        forall|k: Seq<char>| #[trigger]
            live(log).contains_key(k) == exists|j: int|
                0 <= j < log.len() && key_of(#[trigger] log[j].0) == k,
        forall|j: int| 0 <= j < log.len() ==> live(log)[key_of(#[trigger] log[j].0)] == j,
    decreases log.len(),
{
    if log.len() > 0 {
        let prev = log.drop_last();
        let n = log.len() - 1;
        assert forall|j: int| 0 <= j < prev.len() implies prev[j] == log[j] by {}
        assert forall|a: int, b: int|
            0 <= a < b < prev.len() implies key_of(#[trigger] prev[a].0) != key_of(
            #[trigger] prev[b].0,
        ) by {
            assert(key_of(log[a].0) != key_of(log[b].0));
        }
        assert forall|j: int| 0 <= j < prev.len() implies #[trigger] prev[j].0 is Put by {
            assert(log[j].0 is Put);
        }
        lemma_live_of_distinct_puts(prev);
        assert(log[n].0 is Put);
        assert forall|k: Seq<char>| #[trigger]
            live(log).contains_key(k) == exists|j: int|
                0 <= j < log.len() && key_of(#[trigger] log[j].0) == k by {
            if live(prev).contains_key(k) {
                let j = choose|j: int| 0 <= j < prev.len() && key_of(#[trigger] prev[j].0) == k;
                assert(key_of(log[j].0) == k);
            }
            if exists|j: int| 0 <= j < log.len() && key_of(#[trigger] log[j].0) == k {
                let j = choose|j: int| 0 <= j < log.len() && key_of(#[trigger] log[j].0) == k;
                if j < n {
                    assert(key_of(prev[j].0) == k);
                }
            }
        }
        assert forall|j: int| 0 <= j < log.len() implies live(log)[key_of(#[trigger] log[j].0)]
            == j by {
            if j < n {
                assert(key_of(prev[j].0) == key_of(log[j].0));
                assert(key_of(log[j].0) != key_of(log[n].0));
            }
        }
    }
}

/// The total size of the records of `log` among the first `n` whose numbers are in `s`.
pub open spec fn size_of_set(log: Seq<(Command, nat)>, s: Set<int>, n: int) -> nat
    decreases n,
{
    if n <= 0 {
        0
    } else {
        size_of_set(log, s, n - 1) + if s.contains(n - 1) {
            log[n - 1].1
        } else {
            0
        }
    }
}

/// Picking no record takes no room.
pub proof fn lemma_size_of_set_empty(log: Seq<(Command, nat)>, n: int)
    ensures
        size_of_set(log, Set::empty(), n) == 0,
    decreases n,
{
    if n > 0 {
        lemma_size_of_set_empty(log, n - 1);
    }
}

/// Records picked from the first `n` take no more room than those `n` do.
pub proof fn lemma_size_of_set_bound(log: Seq<(Command, nat)>, s: Set<int>, n: int)
    ensures
        size_of_set(log, s, n) <= offset_of(log, n),
    decreases n,
{
    if n > 0 {
        lemma_size_of_set_bound(log, s, n - 1);
    }
}

/// Picking one more record adds its size.
pub proof fn lemma_size_of_set_insert(log: Seq<(Command, nat)>, s: Set<int>, x: int, n: int)
    requires
        0 <= x < n,
        !s.contains(x),
    ensures
        size_of_set(log, s.insert(x), n) == size_of_set(log, s, n) + log[x].1,
    decreases n,
{
    if n - 1 > x {
        lemma_size_of_set_insert(log, s, x, n - 1);
    } else {
        lemma_size_of_set_same(log, s, x, n - 1);
    }
}

/// Records past the first `n` do not count.
pub proof fn lemma_size_of_set_same(log: Seq<(Command, nat)>, s: Set<int>, x: int, n: int)
    requires
        n <= x,
    ensures
        size_of_set(log, s.insert(x), n) == size_of_set(log, s, n),
    decreases n,
{
    if n > 0 {
        lemma_size_of_set_same(log, s, x, n - 1);
    }
}

/// What appending one record does to the contents: a `Put` installs its value,
/// an `Rm` drops its key, and any other command changes nothing.
pub proof fn lemma_contents_push(log: Seq<(Command, nat)>, r: (Command, nat))
    ensures
        contents(log.push(r)) == (match r.0 {
            Command::Put { key, value } => contents(log).insert(key@, value@),
            Command::Rm { key } => contents(log).remove(key@),
            _ => contents(log),
        }),
{
    let next = log.push(r);
    assert(next.drop_last() =~= log);
    lemma_live_points_to_put(log);
    assert forall|i: int| 0 <= i < log.len() implies next[i] == log[i] by {}
    match r.0 {
        Command::Put { key, value } => {
            assert(contents(next) =~= contents(log).insert(key@, value@));
        },
        Command::Rm { key } => {
            assert(contents(next) =~= contents(log).remove(key@));
        },
        _ => {
            assert(contents(next) =~= contents(log));
        },
    }
}

} // verus!
