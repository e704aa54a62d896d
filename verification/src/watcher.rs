//! What is done about changed files.
use crate::paths::{components, same_path};
use crate::sorting::views;
use vstd::prelude::*;

verus! {

/// What happened to a file.
#[derive(Clone, Copy, Debug, PartialEq, Eq, Structural)]
pub enum ChangeKind {
    Removed,
    Changed,
    Other,
}

/// What is done about it.
#[derive(Clone, Copy, Debug, PartialEq, Eq, Structural)]
pub enum WatchAction {
    /// The event is passed over.
    Skip,
    /// The chunks of the file are deleted.
    Delete,
    /// The file is indexed again.
    Index,
    /// The event counts, but asks for nothing.
    Nothing,
}

/// When an event of a file last counted, in nanoseconds. There is no such time
/// once the file was removed: whatever is there next is another file.
#[derive(Clone, Debug)]
pub struct SeenPath {
    pub path: String,
    pub at: Option<u128>,
}

impl View for SeenPath {
    type V = (Seq<char>, Option<int>);

    open spec fn view(&self) -> (Seq<char>, Option<int>) {
        (
            self.path@,
            match self.at {
                Some(at) => Some(at as int),
                None => None,
            },
        )
    }
}

/// When an event of each file last counted.
#[derive(Clone, Debug)]
pub struct WatchState {
    pub seen: Vec<SeenPath>,
}

/// The position of a path among those that were seen, or their number.
pub open spec fn seen_index(seen: Seq<(Seq<char>, Option<int>)>, path: Seq<char>) -> int
    decreases seen.len(),
{
    if seen.len() == 0 || components(seen[0].0) == components(path) {
        0
    } else {
        1 + seen_index(seen.drop_first(), path)
    }
}

/// When an event of a path last counted, if one did since it was last removed.
pub open spec fn last_seen(seen: Seq<(Seq<char>, Option<int>)>, path: Seq<char>) -> Option<int> {
    let at = seen_index(seen, path);
    if 0 <= at < seen.len() {
        seen[at].1
    } else {
        None
    }
}

/// The time between two moments, zero where the second is before the first.
pub open spec fn elapsed(from: int, now: int) -> int {
    if from <= now {
        now - from
    } else {
        0
    }
}

/// Whether an event comes too soon after another of the same file.
pub open spec fn too_soon(
    seen: Seq<(Seq<char>, Option<int>)>,
    path: Seq<char>,
    now: int,
    debounce_ms: int,
) -> bool {
    match last_seen(seen, path) {
        Some(at) => elapsed(at, now) < debounce_ms * 1000000,
        None => false,
    }
}

/// Whether an event is passed over: one of a directory, and a change that comes
/// too soon after another event of the same file. A removal always counts.
pub open spec fn passed_over(
    seen: Seq<(Seq<char>, Option<int>)>,
    path: Seq<char>,
    is_dir: bool,
    kind: ChangeKind,
    now: int,
    debounce_ms: int,
) -> bool {
    is_dir || (kind != ChangeKind::Removed && too_soon(seen, path, now, debounce_ms))
}

/// What was seen, with the time of a path.
pub open spec fn with_seen(
    seen: Seq<(Seq<char>, Option<int>)>,
    path: Seq<char>,
    time: Option<int>,
) -> Seq<(Seq<char>, Option<int>)> {
    let at = seen_index(seen, path);
    if 0 <= at < seen.len() {
        seen.update(at, (seen[at].0, time))
    } else {
        seen.push((path, time))
    }
}

/// The time that an event sets which counts now: a removal sets none, so that what
/// comes next counts.
pub open spec fn time_set(kind: ChangeKind, now: int) -> Option<int> {
    if kind == ChangeKind::Removed {
        None
    } else {
        Some(now)
    }
}

/// What is done about an event that counts.
pub open spec fn answer(kind: ChangeKind) -> WatchAction {
    match kind {
        ChangeKind::Removed => WatchAction::Delete,
        ChangeKind::Changed => WatchAction::Index,
        ChangeKind::Other => WatchAction::Nothing,
    }
}

impl WatchState {
    /// Nothing was seen yet.
    pub fn new() -> (state: Self)
        ensures
            views(state.seen@) == Seq::<(Seq<char>, Option<int>)>::empty(),
    {
        let state = WatchState { seen: Vec::new() };
        assert(views(state.seen@) =~= Seq::<(Seq<char>, Option<int>)>::empty());
        state
    }

    /// Finds a path among those that were seen.
    fn find(&self, path: &str) -> (at: Option<usize>)
        ensures
            match at {
                Some(at) => at < self.seen@.len() && seen_index(views(self.seen@), path@) == at,
                None => seen_index(views(self.seen@), path@) == self.seen@.len(),
            },
    {
        let ghost all = views(self.seen@);
        let mut i: usize = 0;
        assert(all.skip(0) =~= all);
        while i < self.seen.len()
            invariant
                i <= self.seen@.len(),
                all == views(self.seen@),
                seen_index(all, path@) == i + seen_index(all.skip(i as int), path@),
            decreases self.seen@.len() - i,
        {
            proof {
                assert(all.skip(i as int)[0] == self.seen@[i as int]@);
                assert(all.skip(i as int).drop_first() =~= all.skip(i + 1));
            }
            if same_path(self.seen[i].path.as_str(), path) {
                return Some(i);
            }
            i = i + 1;
        }
        None
    }

    /// Tells what is done about an event of a path. `now` is in nanoseconds.
    pub fn observe(
        &mut self,
        path: &str,
        is_dir: bool,
        kind: ChangeKind,
        now: u128,
        debounce_ms: u64,
    ) -> (action: WatchAction)
        ensures
            ({
                let seen = views(old(self).seen@);
                if passed_over(seen, path@, is_dir, kind, now as int, debounce_ms as int) {
                    action == WatchAction::Skip && views(final(self).seen@) == seen
                } else {
                    action == answer(kind) && views(final(self).seen@) == with_seen(
                        seen,
                        path@,
                        time_set(kind, now as int),
                    )
                }
            }),
    {
        let ghost seen = views(self.seen@);
        if is_dir {
            return WatchAction::Skip;
        }
        let debounce: u128 = debounce_ms as u128 * 1000000;
        let time: Option<u128> = if kind == ChangeKind::Removed {
            None
        } else {
            Some(now)
        };
        match self.find(path) {
            Some(at) => {
                assert(seen[at as int] == self.seen@[at as int]@);
                match self.seen[at].at {
                    Some(last) => {
                        let passed: u128 = if last <= now {
                            now - last
                        } else {
                            0
                        };
                        if kind != ChangeKind::Removed && passed < debounce {
                            return WatchAction::Skip;
                        }
                    },
                    None => {},
                }
                let own = self.seen[at].path.clone();
                self.seen.set(at, SeenPath { path: own, at: time });
                assert(views(self.seen@) =~= with_seen(
                    seen,
                    path@,
                    time_set(kind, now as int),
                ));
            },
            None => {
                self.seen.push(SeenPath { path: path.to_owned(), at: time });
                assert(views(self.seen@) =~= with_seen(
                    seen,
                    path@,
                    time_set(kind, now as int),
                ));
            },
        }
        match kind {
            ChangeKind::Removed => WatchAction::Delete,
            ChangeKind::Changed => WatchAction::Index,
            ChangeKind::Other => WatchAction::Nothing,
        }
    }
}

/// The position of a path is one of the positions, or their number, and the path
/// there is the same path.
proof fn lemma_seen_index(seen: Seq<(Seq<char>, Option<int>)>, path: Seq<char>)
    ensures
        0 <= seen_index(seen, path) <= seen.len(),
        seen_index(seen, path) < seen.len() ==> components(seen[seen_index(seen, path)].0)
            == components(path),
    decreases seen.len(),
{
    if seen.len() > 0 {
        lemma_seen_index(seen.drop_first(), path);
    }
}

/// The time of one path does not move that of another.
proof fn lemma_seen_other(
    seen: Seq<(Seq<char>, Option<int>)>,
    path: Seq<char>,
    time: Option<int>,
    other: Seq<char>,
)
    requires
        components(other) != components(path),
    ensures
        last_seen(with_seen(seen, path, time), other) == last_seen(seen, other),
    decreases seen.len(),
{
    let next = with_seen(seen, path, time);
    lemma_seen_index(seen, path);
    lemma_seen_index(seen, other);
    lemma_seen_index(next, other);
    if seen.len() == 0 {
        assert(next.drop_first() =~= Seq::<(Seq<char>, Option<int>)>::empty());
    } else {
        let rest = seen.drop_first();
        if components(seen[0].0) == components(path) {
            assert(next.drop_first() =~= rest);
        } else {
            lemma_seen_other(rest, path, time, other);
            assert(next.drop_first() =~= with_seen(rest, path, time));
            lemma_seen_index(rest, other);
            lemma_seen_index(with_seen(rest, path, time), other);
        }
    }
}

/// The time of a path is found again.
proof fn lemma_seen_again(
    seen: Seq<(Seq<char>, Option<int>)>,
    path: Seq<char>,
    time: Option<int>,
)
    ensures
        last_seen(with_seen(seen, path, time), path) == time,
    decreases seen.len(),
{
    let next = with_seen(seen, path, time);
    lemma_seen_index(seen, path);
    if seen.len() == 0 {
        assert(next[0].0 == path);
    } else if components(seen[0].0) != components(path) {
        let rest = seen.drop_first();
        lemma_seen_again(rest, path, time);
        lemma_seen_index(rest, path);
        lemma_seen_index(with_seen(rest, path, time), path);
        assert(next.drop_first() =~= with_seen(rest, path, time));
        assert(next[0] == seen[0]);
    }
}

/// Once an event `first` of a file counted, changes of the same file are passed
/// over for as long as the debounce lasts, and no longer, unless it was the removal
/// of the file, after which the next change counts. Changes of other files are not
/// touched by it. The removal of a file is never passed over.
pub proof fn law_debounce(
    seen: Seq<(Seq<char>, Option<int>)>,
    path: Seq<char>,
    first: ChangeKind,
    at: int,
    other: Seq<char>,
    kind: ChangeKind,
    now: int,
    debounce_ms: int,
)
    requires
        at <= now,
        0 <= debounce_ms,
    ensures
        ({
            let after = with_seen(seen, path, time_set(first, at));
            let passed = passed_over(after, other, false, kind, now, debounce_ms);
            &&& kind == ChangeKind::Removed ==> !passed && answer(kind) == WatchAction::Delete
            &&& kind != ChangeKind::Removed && components(other) == components(path) ==> passed == (
            first != ChangeKind::Removed && now - at < debounce_ms * 1000000)
            &&& kind != ChangeKind::Removed && components(other) != components(path) ==> passed
                == passed_over(seen, other, false, kind, now, debounce_ms)
        }),
{
    let time = time_set(first, at);
    if components(other) == components(path) {
        lemma_seen_again(seen, path, time);
        lemma_same_index(with_seen(seen, path, time), path, other);
    } else {
        lemma_seen_other(seen, path, time, other);
    }
}

/// The same path is found at the same position.
proof fn lemma_same_index(seen: Seq<(Seq<char>, Option<int>)>, path: Seq<char>, other: Seq<char>)
    requires
        components(other) == components(path),
    ensures
        seen_index(seen, path) == seen_index(seen, other),
    decreases seen.len(),
{
    if seen.len() > 0 {
        lemma_same_index(seen.drop_first(), path, other);
    }
}

} // verus!
