use vstd::prelude::*;

use crate::command::Command;
use crate::engine::{compacted, end_before, ends_of, ends_ordered, log_of_ends, KvStore};
use crate::log::{
    contents, key_of, lemma_live_points_to_put, lemma_offset_monotonic, live, log_size, offset_of,
    puts_key,
};

verus! {

/// Durability across reopening: the records that a store's log file yields
/// when read back from its start come with offsets in order, and they
/// describe the very log the store wrote, so the store that `open` rebuilds
/// from them has the same contents as the store that was closed.
pub proof fn lemma_reopen_restores(s: &KvStore)
    requires
        s.wf(),
    ensures
        ends_ordered(ends_of(s.log())),
        log_of_ends(ends_of(s.log())) == s.log(),
        contents(log_of_ends(ends_of(s.log()))) == s.view(),
{
    let log = s.log();
    let ends = ends_of(log);
    s.lemma_position();
    assert forall|i: int| 0 <= i < log.len() implies ends[i].1 == offset_of(log, i + 1) && end_before(
        ends,
        i,
    ) == offset_of(log, i) by {
        lemma_offset_monotonic(log, i + 1, log.len() as int);
        if i > 0 {
            lemma_offset_monotonic(log, i, log.len() as int);
        }
    }
    assert(log_of_ends(ends) =~= log);
}

/// Last writer wins: after two `set`s of one key, the key holds the second value.
pub proof fn lemma_last_writer_wins(
    s0: &KvStore,
    s1: &KvStore,
    s2: &KvStore,
    k: Seq<char>,
    v1: Seq<char>,
    v2: Seq<char>,
)
    requires
        s1.view() == s0.view().insert(k, v1),
        s2.view() == s1.view().insert(k, v2),
    ensures
        s2.view().contains_key(k),
        s2.view()[k] == v2,
{
}

/// Removal invalidates: after `set` then `remove` of one key the key is absent,
/// so `get` finds nothing and a second `remove` is `KeyNotFound`.
pub proof fn lemma_remove_invalidates(s0: &KvStore, s1: &KvStore, s2: &KvStore, k: Seq<char>, v: Seq<char>)
    requires
        s1.view() == s0.view().insert(k, v),
        s2.view() == s1.view().remove(k),
    ensures
        !s2.view().contains_key(k),
{
}

/// A fresh store holds no key, so any `remove` on it is `KeyNotFound`.
pub proof fn lemma_fresh_store_is_empty(s: &KvStore, k: Seq<char>)
    requires
        s.log() == Seq::<(Command, nat)>::empty(),
    ensures
        !s.view().contains_key(k),
{
    assert(live(s.log()) == Map::<Seq<char>, int>::empty());
}

/// After compaction a log whose only live key is `k` holds one record, the
/// one of `k`: its size no longer depends on how often `k` was overwritten.
pub proof fn lemma_compacted_single_key(log: Seq<(Command, nat)>, k: Seq<char>)
    requires
        compacted(log),
        contents(log).dom() == set![k],
    ensures
        log.len() == 1,
        log_size(log) == log[0].1,
        key_of(log[0].0) == k,
{
    assert(contents(log).dom().contains(k));
    lemma_live_points_to_put(log);
    let i = live(log)[k];
    assert(0 <= i < log.len());
    assert forall|j: int| 0 <= j < log.len() implies key_of(#[trigger] log[j].0) == k && j == i by {
        let kj = key_of(log[j].0);
        assert(contents(log).dom().contains(kj));
        assert(set![k].contains(kj));
    }
    if log.len() > 1 {
        assert(key_of(log[0].0) == k);
        assert(key_of(log[1].0) == k);
    }
    assert(log.len() == 1);
    assert(puts_key(log[i].0, k));
    assert(offset_of(log, 0) == 0);
    assert(offset_of(log, 1) == log[0].1);
}

} // verus!
