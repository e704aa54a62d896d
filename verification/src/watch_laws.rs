//! What holds of every run of events that a watcher sees.
use crate::paths::components;
use crate::watcher::{
    answer, last_seen, passed_over, seen_index, time_set, with_seen, ChangeKind, WatchAction,
};
use vstd::prelude::*;

verus! {

/// What is known after an event and what is done about it.
pub open spec fn watched(
    seen: Seq<(Seq<char>, Option<int>)>,
    path: Seq<char>,
    is_dir: bool,
    kind: ChangeKind,
    now: int,
    debounce_ms: int,
) -> (Seq<(Seq<char>, Option<int>)>, WatchAction) {
    if passed_over(seen, path, is_dir, kind, now, debounce_ms) {
        (seen, WatchAction::Skip)
    } else {
        (with_seen(seen, path, time_set(kind, now)), answer(kind))
    }
}

/// The first place of a path among those that were seen.
proof fn lemma_seen_index(seen: Seq<(Seq<char>, Option<int>)>, path: Seq<char>)
    ensures
        ({
            let at = seen_index(seen, path);
            &&& 0 <= at <= seen.len()
            &&& at < seen.len() ==> components(seen[at].0) == components(path)
            &&& forall|k: int|
                0 <= k < at ==> components((#[trigger] seen[k]).0) != components(path)
        }),
    decreases seen.len(),
{
    if seen.len() > 0 && components(seen[0].0) != components(path) {
        let rest = seen.drop_first();
        lemma_seen_index(rest, path);
        let at = seen_index(rest, path);
        assert forall|k: int| 0 <= k < at + 1 implies components((#[trigger] seen[k]).0)
            != components(path) by {
            if k > 0 {
                assert(seen[k] == rest[k - 1]);
            }
        }
        if at < rest.len() {
            assert(seen[at + 1] == rest[at]);
        }
    }
}

/// A path that was just seen has the time that was set for it; the times of all
/// other paths stay as they were.
pub proof fn law_time_of_path(
    seen: Seq<(Seq<char>, Option<int>)>,
    path: Seq<char>,
    time: Option<int>,
    other: Seq<char>,
)
    ensures
        last_seen(with_seen(seen, path, time), other) == if components(other) == components(path) {
            time
        } else {
            last_seen(seen, other)
        },
{
    let next = with_seen(seen, path, time);
    lemma_seen_index(seen, path);
    lemma_seen_index(seen, other);
    lemma_seen_index(next, other);
    let at = seen_index(seen, path);
    let from = seen_index(seen, other);
    let to = seen_index(next, other);
    if at < seen.len() {
        assert(next.len() == seen.len());
        assert forall|k: int| 0 <= k < seen.len() implies (#[trigger] next[k]).0 == seen[k].0 by {}
        if to < from {
            assert(components(seen[to].0) != components(other));
            assert(components(next[to].0) == components(other));
        }
        if from < to {
            assert(components(next[from].0) != components(other));
            assert(components(seen[from].0) == components(other));
        }
        assert(to == from);
        if components(other) == components(path) {
            if at < to {
                assert(components(next[at].0) != components(other));
            }
            if to < at {
                assert(components(seen[to].0) != components(path));
            }
        }
    } else {
        assert forall|k: int| 0 <= k < seen.len() implies #[trigger] next[k] == seen[k] by {}
        assert(next[seen.len() as int] == (path, time));
        if from < seen.len() {
            assert(components(next[from].0) == components(other));
            if components(other) == components(path) {
                assert(components(seen[from].0) != components(path));
            }
        }
        if to < seen.len() {
            assert(components(seen[to].0) == components(other));
        }
    }
}

/// No path was seen at the start.
pub proof fn law_nothing_was_seen(path: Seq<char>)
    ensures
        last_seen(Seq::empty(), path) is None,
{
}

/// Which events are passed over: those of directories, and those, removals aside,
/// that come sooner after the last one of their path that counted than the pause
/// allows. What is done about the others depends on their kind alone.
pub proof fn law_which_events_count(
    seen: Seq<(Seq<char>, Option<int>)>,
    path: Seq<char>,
    is_dir: bool,
    kind: ChangeKind,
    now: int,
    debounce_ms: int,
)
    requires
        0 <= debounce_ms,
        last_seen(seen, path) is Some ==> last_seen(seen, path)->0 <= now,
    ensures
        ({
            let action = watched(seen, path, is_dir, kind, now, debounce_ms).1;
            let soon = last_seen(seen, path) is Some && now - last_seen(seen, path)->0 < debounce_ms
                * 1000000;
            &&& action == WatchAction::Skip <==> is_dir || (kind != ChangeKind::Removed && soon)
            &&& action == WatchAction::Delete <==> !is_dir && kind == ChangeKind::Removed
            &&& action == WatchAction::Index <==> !is_dir && kind == ChangeKind::Changed && !soon
        }),
{
}

/// What is known after an event: one that is passed over leaves all as it was, one
/// that counts sets the time of its path, and a removal forgets it.
pub proof fn law_what_is_known(
    seen: Seq<(Seq<char>, Option<int>)>,
    path: Seq<char>,
    is_dir: bool,
    kind: ChangeKind,
    now: int,
    debounce_ms: int,
    other: Seq<char>,
)
    ensures
        ({
            let after = watched(seen, path, is_dir, kind, now, debounce_ms);
            last_seen(after.0, other) == if after.1 == WatchAction::Skip || components(other)
                != components(path) {
                last_seen(seen, other)
            } else if kind == ChangeKind::Removed {
                None
            } else {
                Some(now)
            }
        }),
{
    law_time_of_path(seen, path, time_set(kind, now), other);
}

/// Of two changes of a file the second counts exactly where the pause between them
/// is over; a change right behind a removal always counts.
pub proof fn law_pause_between_changes(
    seen: Seq<(Seq<char>, Option<int>)>,
    path: Seq<char>,
    kind: ChangeKind,
    first: int,
    second: int,
    debounce_ms: int,
)
    requires
        0 <= debounce_ms,
        first <= second,
        watched(seen, path, false, kind, first, debounce_ms).1 != WatchAction::Skip,
    ensures
        ({
            let next = watched(seen, path, false, kind, first, debounce_ms).0;
            let action = watched(next, path, false, ChangeKind::Changed, second, debounce_ms).1;
            action == if kind != ChangeKind::Removed && second - first < debounce_ms * 1000000 {
                WatchAction::Skip
            } else {
                WatchAction::Index
            }
        }),
{
    law_time_of_path(seen, path, time_set(kind, first), path);
}

} // verus!
