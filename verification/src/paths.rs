//! Paths as texts in the form of Unix: with slashes between their components, and
//! with one in front where they start at the root.
use crate::text::{
    chars_of, first_char, joined, lemma_first_char, lemma_first_char_is, lemma_split_on, same_text,
    split_on, split_text, text_between, texts,
};
use vstd::prelude::*;

verus! {

// ---------------------------------------------------------------------------
// Components
// ---------------------------------------------------------------------------

/// Whether a path starts at the root.
pub open spec fn absolute(path: Seq<char>) -> bool {
    path.len() > 0 && path[0] == '/'
}

/// Whether `path` starts at the root.
pub fn is_absolute(path: &str) -> (is: bool)
    ensures
        is == absolute(path@),
{
    let chars = chars_of(path);
    chars.len() > 0 && chars[0] == '/'
}

/// Where the piece that starts at `from` ends: at the next slash or at the end
/// of the path.
pub open spec fn piece_end(path: Seq<char>, from: int) -> int {
    from + first_char(path.skip(from), '/')
}

/// Whether the piece from `from` to `end` is a component. Empty pieces are none,
/// nor is a dot, unless the path starts with it.
pub open spec fn counts(path: Seq<char>, from: int, end: int) -> bool {
    from < end && (from == 0 || path.subrange(from, end) != "."@)
}

/// Where the components from position `from` on start and end.
pub open spec fn spots_from(path: Seq<char>, from: int) -> Seq<(int, int)>
    decreases path.len() + 1 - from,
{
    if from < 0 || from > path.len() {
        Seq::empty()
    } else {
        let end = piece_end(path, from);
        let rest = if from <= end <= path.len() {
            spots_from(path, end + 1)
        } else {
            Seq::empty()
        };
        if counts(path, from, end) {
            seq![(from, end)] + rest
        } else {
            rest
        }
    }
}

/// Where the components of a path start and end. The root is a component of its
/// own.
pub open spec fn spots(path: Seq<char>) -> Seq<(int, int)> {
    if absolute(path) {
        seq![(0int, 1int)] + spots_from(path, 1)
    } else {
        spots_from(path, 0)
    }
}

/// The texts at some spots of a path.
pub open spec fn texts_at(path: Seq<char>, spots: Seq<(int, int)>) -> Seq<Seq<char>> {
    Seq::new(spots.len(), |i: int| path.subrange(spots[i].0, spots[i].1))
}

/// The components of a path: the root as a slash, and the names between the
/// slashes, with a dot only at the start of a path that is not absolute.
pub open spec fn components(path: Seq<char>) -> Seq<Seq<char>> {
    texts_at(path, spots(path))
}

/// Where components start and end, as mathematical values.
pub open spec fn spot_view(list: Seq<(usize, usize)>) -> Seq<(int, int)> {
    Seq::new(list.len(), |i: int| (list[i].0 as int, list[i].1 as int))
}

/// Finds where the components of a path start and end.
fn find_spots(chars: &Vec<char>) -> (found: Vec<(usize, usize)>)
    ensures
        spot_view(found@) == spots(chars@),
        forall|i: int| 0 <= i < found@.len() ==> (#[trigger] found@[i]).0 <= found@[i].1 <= chars@.len(),
{
    let ghost path = chars@;
    let mut found: Vec<(usize, usize)> = Vec::new();
    let mut from: usize = 0;
    let count: usize = chars.len();
    if count > 0 && chars[0] == '/' {
        found.push((0, 1));
        from = 1;
        assert(spot_view(found@) =~= seq![(0int, 1int)]);
    } else {
        assert(spot_view(found@) =~= Seq::<(int, int)>::empty());
    }
    assert(spot_view(found@) + spots_from(path, from as int) =~= spots(path));
    let mut open = true;
    while open
        invariant
            path == chars@,
            count == path.len(),
            from <= count,
            open ==> spots(path) == spot_view(found@) + spots_from(path, from as int),
            !open ==> spots(path) == spot_view(found@),
            forall|i: int|
                0 <= i < found@.len() ==> (#[trigger] found@[i]).0 <= found@[i].1 <= count,
        decreases count - from + if open {
            1int
        } else {
            0
        },
    {
        let mut end: usize = from;
        while end < count && chars[end] != '/'
            invariant
                path == chars@,
                count == path.len(),
                from <= end <= count,
                forall|k: int| from <= k < end ==> path[k] != '/',
            decreases count - end,
        {
            end = end + 1;
        }
        proof {
            let rest = path.skip(from as int);
            lemma_first_char_is(rest, '/', end - from);
            assert(piece_end(path, from as int) == end);
        }
        let name = text_between(chars, from, end);
        let ghost before = spot_view(found@);
        let ghost behind = spots_from(path, end + 1);
        if from < end && (from == 0 || !same_text(name.as_str(), ".")) {
            found.push((from, end));
            proof {
                assert(spot_view(found@) =~= before.push((from as int, end as int)));
                assert(before + (seq![(from as int, end as int)] + behind) =~= before.push(
                    (from as int, end as int),
                ) + behind);
            }
        }
        if end < count {
            from = end + 1;
        } else {
            open = false;
            assert(spot_view(found@) + Seq::<(int, int)>::empty() =~= spot_view(found@));
        }
    }
    found
}

/// The components of `path`.
pub fn path_components(path: &str) -> (parts: Vec<String>)
    ensures
        texts(parts@) == components(path@),
{
    let chars = chars_of(path);
    let found = find_spots(&chars);
    let mut parts: Vec<String> = Vec::new();
    let mut i: usize = 0;
    while i < found.len()
        invariant
            i <= found@.len(),
            chars@ == path@,
            spot_view(found@) == spots(path@),
            forall|k: int|
                0 <= k < found@.len() ==> (#[trigger] found@[k]).0 <= found@[k].1 <= chars@.len(),
            texts(parts@) == components(path@).take(i as int),
        decreases found@.len() - i,
    {
        let spot = found[i];
        assert(spot_view(found@)[i as int] == spots(path@)[i as int]);
        let name = text_between(&chars, spot.0, spot.1);
        proof {
            let all = components(path@);
            assert(texts(parts@.push(name)) =~= texts(parts@).push(name@));
            assert(all.take(i + 1) =~= all.take(i as int).push(all[i as int]));
        }
        parts.push(name);
        i = i + 1;
    }
    assert(components(path@).take(i as int) =~= components(path@));
    parts
}

// ---------------------------------------------------------------------------
// Comparing
// ---------------------------------------------------------------------------

/// Whether two lists of texts are the same.
fn same_texts(a: &Vec<String>, b: &Vec<String>) -> (same: bool)
    ensures
        same == (texts(a@) == texts(b@)),
{
    if a.len() != b.len() {
        assert(texts(a@).len() != texts(b@).len());
        return false;
    }
    let mut i: usize = 0;
    while i < a.len()
        invariant
            i <= a@.len() == b@.len(),
            forall|k: int| 0 <= k < i ==> (#[trigger] a@[k])@ == b@[k]@,
        decreases a@.len() - i,
    {
        if !same_text(a[i].as_str(), b[i].as_str()) {
            assert(texts(a@)[i as int] != texts(b@)[i as int]);
            return false;
        }
        i = i + 1;
    }
    assert(texts(a@) =~= texts(b@));
    true
}

/// Whether two paths have the same components.
pub fn same_path(a: &str, b: &str) -> (same: bool)
    ensures
        same == (components(a@) == components(b@)),
{
    let left = path_components(a);
    let right = path_components(b);
    same_texts(&left, &right)
}

/// Whether the components of `path` start with those of `base`.
pub open spec fn under(path: Seq<char>, base: Seq<char>) -> bool {
    components(base).is_prefix_of(components(path))
}

/// What stands behind the components of `base` in a path under it.
pub open spec fn below(path: Seq<char>, base: Seq<char>) -> Seq<char> {
    let own = spots(path);
    let depth = spots(base).len() as int;
    if depth < own.len() {
        path.subrange(own[depth].0, own.last().1)
    } else {
        Seq::empty()
    }
}

/// What stands in `path` behind `base`, if `path` is under it.
pub fn strip_prefix(path: &str, base: &str) -> (rest: Option<String>)
    ensures
        match rest {
            Some(rest) => under(path@, base@) && rest@ == below(path@, base@),
            None => !under(path@, base@),
        },
{
    let own = path_components(path);
    let other = path_components(base);
    let ghost all = components(path@);
    let ghost front = components(base@);
    assert(own@.len() == texts(own@).len() == spots(path@).len());
    assert(other@.len() == texts(other@).len() == spots(base@).len());
    if other.len() > own.len() {
        assert(!front.is_prefix_of(all));
        return None;
    }
    let mut i: usize = 0;
    while i < other.len()
        invariant
            i <= other@.len() <= own@.len(),
            all == texts(own@),
            front == texts(other@),
            all == components(path@),
            front == components(base@),
            forall|k: int| 0 <= k < i ==> #[trigger] front[k] == all[k],
        decreases other@.len() - i,
    {
        if !same_text(own[i].as_str(), other[i].as_str()) {
            assert(front[i as int] != all[i as int]);
            assert(all.subrange(0, front.len() as int)[i as int] == all[i as int]);
            return None;
        }
        assert(front[i as int] == all[i as int]);
        i = i + 1;
    }
    assert(front =~= all.subrange(0, front.len() as int));
    let chars = chars_of(path);
    let found = find_spots(&chars);
    assert(found@.len() == spot_view(found@).len());
    let depth: usize = other.len();
    if depth < found.len() {
        let from: usize = found[depth].0;
        let to: usize = found[found.len() - 1].1;
        proof {
            lemma_spots_ascend(path@, depth as int, found@.len() - 1);
            assert(spot_view(found@)[depth as int].0 == from);
            assert(spot_view(found@)[found@.len() - 1].1 == to);
        }
        Some(text_between(&chars, from, to))
    } else {
        Some(String::new())
    }
}

/// Spots stand in order.
proof fn lemma_spots_from_ascend(path: Seq<char>, from: int, i: int)
    requires
        0 <= from,
        0 <= i < spots_from(path, from).len(),
    ensures
        from <= spots_from(path, from)[i].0 < spots_from(path, from)[i].1 <= path.len(),
        forall|j: int|
            i < j < spots_from(path, from).len() ==> spots_from(path, from)[i].1 < (
            #[trigger] spots_from(path, from)[j]).0 < spots_from(path, from)[j].1,
    decreases path.len() + 1 - from,
{
    if from <= path.len() {
        let end = piece_end(path, from);
        lemma_first_char(path.skip(from), '/');
        let rest = spots_from(path, end + 1);
        let all = spots_from(path, from);
        if counts(path, from, end) {
            if i > 0 {
                lemma_spots_from_ascend(path, end + 1, i - 1);
            }
            assert forall|j: int| i < j < all.len() implies all[i].1 < (#[trigger] all[j]).0
                < all[j].1 by {
                assert(all[j] == rest[j - 1]);
                if i > 0 {
                    assert(all[i] == rest[i - 1]);
                } else {
                    lemma_spots_from_ascend(path, end + 1, j - 1);
                }
            }
        } else {
            lemma_spots_from_ascend(path, end + 1, i);
        }
    }
}

/// The components of a path stand in order.
proof fn lemma_spots_ascend(path: Seq<char>, i: int, j: int)
    requires
        0 <= i <= j < spots(path).len(),
    ensures
        0 <= spots(path)[i].0 <= spots(path)[j].1 <= path.len(),
{
    if absolute(path) {
        let rest = spots_from(path, 1);
        if i > 0 {
            lemma_spots_from_ascend(path, 1, i - 1);
        }
        if j > 0 {
            lemma_spots_from_ascend(path, 1, j - 1);
            assert(spots(path)[j] == rest[j - 1]);
        }
        if i > 0 && j > i {
            assert(spots(path)[i] == rest[i - 1]);
        }
    } else {
        lemma_spots_from_ascend(path, 0, i);
        lemma_spots_from_ascend(path, 0, j);
    }
}

// ---------------------------------------------------------------------------
// Joining and normalizing
// ---------------------------------------------------------------------------

/// `path` as seen from `base`: itself where it is absolute, else behind `base`
/// with one slash at least between them.
pub open spec fn joined_path(base: Seq<char>, path: Seq<char>) -> Seq<char> {
    if absolute(path) {
        path
    } else if base.len() == 0 || base.last() == '/' {
        base + path
    } else {
        base + "/"@ + path
    }
}

/// Joins `path` to `base`.
pub fn join_path(base: &str, path: &str) -> (out: String)
    ensures
        out@ == joined_path(base@, path@),
{
    if is_absolute(path) {
        return path.to_owned();
    }
    let chars = chars_of(base);
    let mut out: String = base.to_owned();
    if chars.len() > 0 && chars[chars.len() - 1] != '/' {
        out.push_str("/");
    }
    out.push_str(path);
    out
}

/// The components of a path without dots, where each double dot takes away the
/// name before it.
pub open spec fn resolved(parts: Seq<Seq<char>>) -> Seq<Seq<char>>
    decreases parts.len(),
{
    if parts.len() == 0 {
        parts
    } else {
        let init = resolved(parts.drop_last());
        let last = parts.last();
        if last == "."@ {
            init
        } else if last == ".."@ {
            if init.len() > 0 && init.last() != "/"@ {
                init.drop_last()
            } else {
                init
            }
        } else {
            init.push(last)
        }
    }
}

/// Components written as a path.
pub open spec fn written(parts: Seq<Seq<char>>) -> Seq<char> {
    if parts.len() > 0 && parts[0] == "/"@ {
        "/"@ + joined(parts.drop_first(), "/"@)
    } else {
        joined(parts, "/"@)
    }
}

/// A path without dots and double dots.
pub open spec fn normalized(path: Seq<char>) -> Seq<char> {
    written(resolved(components(path)))
}

/// Joins components to a path.
fn write_path(parts: &Vec<String>) -> (path: String)
    ensures
        path@ == written(texts(parts@)),
{
    let ghost all = texts(parts@);
    let mut path = String::new();
    let mut i: usize = 0;
    if parts.len() > 0 && same_text(parts[0].as_str(), "/") {
        assert(all[0] == parts@[0]@);
        path.push_str("/");
        assert(path@ =~= "/"@);
        let ghost rest = all.drop_first();
        i = 1;
        assert(path@ =~= "/"@ + joined(rest.take(0), "/"@));
        while i < parts.len()
            invariant
                1 <= i <= parts@.len(),
                all == texts(parts@),
                rest == all.drop_first(),
                path@ == "/"@ + joined(rest.take(i - 1), "/"@),
            decreases parts@.len() - i,
        {
            proof {
                assert(rest.take(i as int).drop_last() =~= rest.take(i - 1));
                assert(rest[i - 1] == parts@[i as int]@);
            }
            let ghost before = joined(rest.take(i - 1), "/"@);
            if i > 1 {
                path.push_str("/");
            }
            path.push_str(parts[i].as_str());
            assert(path@ =~= "/"@ + joined(rest.take(i as int), "/"@));
            i = i + 1;
        }
        assert(rest.take(i - 1) =~= rest);
        path
    } else {
        if parts.len() > 0 {
            assert(all[0] == parts@[0]@);
        }
        crate::text::join_texts(parts, "/")
    }
}

/// Removes dots and double dots from a path.
pub fn normalize_path(path: &str) -> (out: String)
    ensures
        out@ == normalized(path@),
{
    let parts = path_components(path);
    let ghost all = texts(parts@);
    let mut kept: Vec<String> = Vec::new();
    let mut i: usize = 0;
    assert(texts(kept@) =~= resolved(all.take(0)));
    while i < parts.len()
        invariant
            i <= parts@.len(),
            all == texts(parts@),
            texts(kept@) == resolved(all.take(i as int)),
        decreases parts@.len() - i,
    {
        let ghost before = kept@;
        proof {
            assert(all.take(i + 1).drop_last() =~= all.take(i as int));
            assert(all[i as int] == parts@[i as int]@);
            if before.len() > 0 {
                assert(texts(before).last() == before.last()@);
            }
        }
        if same_text(parts[i].as_str(), ".") {
        } else if same_text(parts[i].as_str(), "..") {
            if kept.len() > 0 && !same_text(kept[kept.len() - 1].as_str(), "/") {
                let _ = kept.pop();
                assert(texts(kept@) =~= texts(before).drop_last());
            }
        } else {
            kept.push(parts[i].clone());
            assert(texts(kept@) =~= texts(before).push(parts@[i as int]@));
        }
        i = i + 1;
    }
    assert(all.take(i as int) =~= all);
    write_path(&kept)
}

/// A path of a root, seen from the working directory, without dots and double
/// dots.
pub open spec fn root_path(path: Seq<char>, cwd: Seq<char>) -> Seq<char> {
    normalized(joined_path(cwd, path))
}

/// The path of a root, seen from the working directory.
pub fn normalize_root_path(path: &str, cwd: &str) -> (out: String)
    ensures
        out@ == root_path(path@, cwd@),
{
    let full = join_path(cwd, path);
    normalize_path(full.as_str())
}

// ---------------------------------------------------------------------------
// Paths that are shown
// ---------------------------------------------------------------------------

/// The texts that are not empty.
pub open spec fn non_empty(parts: Seq<Seq<char>>) -> Seq<Seq<char>>
    decreases parts.len(),
{
    if parts.len() == 0 {
        parts
    } else if parts.last().len() == 0 {
        non_empty(parts.drop_last())
    } else {
        non_empty(parts.drop_last()).push(parts.last())
    }
}

/// A path that is not absolute as it is shown: without dots and double dots,
/// and a dot where nothing is left.
pub open spec fn shown_path(path: Seq<char>) -> Seq<char> {
    let names = resolved(non_empty(split_on(path, '/')));
    if names.len() == 0 {
        "."@
    } else {
        joined(names, "/"@)
    }
}

/// A path that is not absolute as it is shown.
pub fn normalize_relative(path: &str) -> (out: String)
    ensures
        out@ == shown_path(path@),
{
    let parts = split_text(path, '/');
    let ghost all = texts(parts@);
    let mut kept: Vec<String> = Vec::new();
    let mut i: usize = 0;
    assert(texts(kept@) =~= resolved(non_empty(all.take(0))));
    proof {
        lemma_split_on(path@, '/');
    }
    while i < parts.len()
        invariant
            i <= parts@.len(),
            all == texts(parts@),
            texts(kept@) == resolved(non_empty(all.take(i as int))),
            forall|k: int| 0 <= k < kept@.len() ==> (#[trigger] kept@[k])@ != "/"@,
            forall|k: int| 0 <= k < all.len() ==> !(#[trigger] all[k]).contains('/'),
        decreases parts@.len() - i,
    {
        let ghost before = kept@;
        proof {
            reveal_strlit("");
            reveal_strlit("/");
            assert("/"@[0] == '/');
            let names = non_empty(all.take(i as int));
            assert(all.take(i + 1).drop_last() =~= all.take(i as int));
            assert(all[i as int] == parts@[i as int]@);
            assert(names.push(all[i as int]).drop_last() =~= names);
            if before.len() > 0 {
                assert(texts(before).last() == before.last()@);
            }
            if all[i as int] == "/"@ {
                assert(all[i as int].contains('/'));
            }
            if all[i as int].len() == 0 {
                assert(all[i as int] =~= ""@);
            }
        }
        if same_text(parts[i].as_str(), "") {
            assert(all[i as int] =~= Seq::<char>::empty());
        } else if same_text(parts[i].as_str(), ".") {
        } else if same_text(parts[i].as_str(), "..") {
            if kept.len() > 0 {
                let _ = kept.pop();
                assert(texts(kept@) =~= texts(before).drop_last());
            }
        } else {
            kept.push(parts[i].clone());
            assert(texts(kept@) =~= texts(before).push(parts@[i as int]@));
        }
        i = i + 1;
    }
    assert(all.take(i as int) =~= all);
    if kept.len() == 0 {
        ".".to_owned()
    } else {
        crate::text::join_texts(&kept, "/")
    }
}

// ---------------------------------------------------------------------------
// File names
// ---------------------------------------------------------------------------

/// The last component of a path, if it is a name.
pub open spec fn file_name(path: Seq<char>) -> Option<Seq<char>> {
    let parts = components(path);
    if parts.len() > 0 && parts.last() != "/"@ && parts.last() != "."@ && parts.last() != ".."@ {
        Some(parts.last())
    } else {
        None
    }
}

/// The position of the last dot in a name, or a negative number.
pub open spec fn last_dot(name: Seq<char>) -> int
    decreases name.len(),
{
    if name.len() == 0 || name.last() == '.' {
        name.len() - 1
    } else {
        last_dot(name.drop_last())
    }
}

/// What stands behind the last dot of a name, unless the name starts there.
pub open spec fn extension_of(name: Seq<char>) -> Option<Seq<char>> {
    if last_dot(name) > 0 {
        Some(name.skip(last_dot(name) + 1))
    } else {
        None
    }
}

/// A name without its extension.
pub open spec fn stem_of(name: Seq<char>) -> Seq<char> {
    if last_dot(name) > 0 {
        name.take(last_dot(name))
    } else {
        name
    }
}

/// The extension of a path, if its last component has one.
pub open spec fn path_extension(path: Seq<char>) -> Option<Seq<char>> {
    match file_name(path) {
        Some(name) => extension_of(name),
        None => None,
    }
}

/// The name that a path ends with, without its extension.
pub open spec fn path_stem(path: Seq<char>) -> Option<Seq<char>> {
    match file_name(path) {
        Some(name) => Some(stem_of(name)),
        None => None,
    }
}

/// A path without its last component, if it has one besides the root.
pub open spec fn path_parent(path: Seq<char>) -> Option<Seq<char>> {
    let own = spots(path);
    if own.len() == 0 || components(path).last() == "/"@ {
        None
    } else if own.len() == 1 {
        Some(Seq::empty())
    } else {
        Some(path.subrange(0, own[own.len() - 2].1))
    }
}

/// A path with another extension, as long as its last component is a name.
pub open spec fn path_with_extension(path: Seq<char>, extension: Seq<char>) -> Seq<char> {
    match file_name(path) {
        Some(name) => path.take(spots(path).last().0 + stem_of(name).len()) + "."@ + extension,
        None => path,
    }
}

/// The last component of `path` and where it starts and ends, if it is a name.
fn find_file_name(path: &str) -> (found: Option<(usize, usize, String)>)
    ensures
        match found {
            Some(found) => {
                &&& file_name(path@) == Some(found.2@)
                &&& spots(path@).last() == (found.0 as int, found.1 as int)
                &&& found.0 <= found.1 <= path@.len()
                &&& found.2@ == path@.subrange(found.0 as int, found.1 as int)
            },
            None => file_name(path@) is None,
        },
{
    let chars = chars_of(path);
    let found = find_spots(&chars);
    let count: usize = found.len();
    assert(count == spot_view(found@).len());
    if count == 0 {
        return None;
    }
    let spot = found[count - 1];
    assert(spot_view(found@)[count - 1] == (spot.0 as int, spot.1 as int));
    let name = text_between(&chars, spot.0, spot.1);
    assert(components(path@).last() == name@);
    if same_text(name.as_str(), "/") || same_text(name.as_str(), ".") || same_text(
        name.as_str(),
        "..",
    ) {
        None
    } else {
        Some((spot.0, spot.1, name))
    }
}

/// The position of the last dot in a name, if there is one behind its start.
fn find_last_dot(name: &Vec<char>) -> (at: Option<usize>)
    ensures
        match at {
            Some(at) => last_dot(name@) == at && 0 < at < name@.len(),
            None => last_dot(name@) <= 0,
        },
{
    let mut at: usize = name.len();
    assert(name@.take(at as int) =~= name@);
    while at > 0
        invariant
            at <= name@.len(),
            last_dot(name@) == last_dot(name@.take(at as int)),
        decreases at,
    {
        assert(name@.take(at as int).last() == name@[at - 1]);
        if name[at - 1] == '.' {
            return if at > 1 {
                Some(at - 1)
            } else {
                None
            };
        }
        assert(name@.take(at as int).drop_last() =~= name@.take(at - 1));
        at = at - 1;
    }
    None
}

/// The extension of `path`, if it has one.
pub fn extension(path: &str) -> (found: Option<String>)
    ensures
        match found {
            Some(found) => path_extension(path@) == Some(found@),
            None => path_extension(path@) is None,
        },
{
    match find_file_name(path) {
        Some(found) => {
            let name = chars_of(found.2.as_str());
            match find_last_dot(&name) {
                Some(dot) => {
                    let text = text_between(&name, dot + 1, name.len());
                    assert(text@ =~= name@.skip(dot + 1));
                    Some(text)
                },
                None => None,
            }
        },
        None => None,
    }
}

/// The name that `path` ends with, without its extension.
pub fn file_stem(path: &str) -> (found: Option<String>)
    ensures
        match found {
            Some(found) => path_stem(path@) == Some(found@),
            None => path_stem(path@) is None,
        },
{
    match find_file_name(path) {
        Some(found) => {
            let name = chars_of(found.2.as_str());
            match find_last_dot(&name) {
                Some(dot) => {
                    let text = text_between(&name, 0, dot);
                    assert(text@ =~= name@.take(dot as int));
                    Some(text)
                },
                None => Some(found.2),
            }
        },
        None => None,
    }
}

/// `path` without its last component, if it has one besides the root.
pub fn parent(path: &str) -> (found: Option<String>)
    ensures
        match found {
            Some(found) => path_parent(path@) == Some(found@),
            None => path_parent(path@) is None,
        },
{
    let chars = chars_of(path);
    let found = find_spots(&chars);
    let count: usize = found.len();
    assert(count == spot_view(found@).len());
    if count == 0 {
        return None;
    }
    let spot = found[count - 1];
    assert(spot_view(found@)[count - 1] == (spot.0 as int, spot.1 as int));
    let name = text_between(&chars, spot.0, spot.1);
    assert(components(path@).last() == name@);
    if same_text(name.as_str(), "/") {
        return None;
    }
    if count == 1 {
        return Some(String::new());
    }
    assert(spot_view(found@)[count - 2].1 == found@[count - 2].1);
    Some(text_between(&chars, 0, found[count - 2].1))
}

/// `path` with another extension, as long as its last component is a name.
pub fn with_extension(path: &str, extension: &str) -> (out: String)
    ensures
        out@ == path_with_extension(path@, extension@),
{
    match find_file_name(path) {
        Some(found) => {
            let name = chars_of(found.2.as_str());
            let keep: usize = match find_last_dot(&name) {
                Some(dot) => dot,
                None => name.len(),
            };
            let chars = chars_of(path);
            assert(name@.len() == found.1 - found.0);
            let mut out = text_between(&chars, 0, found.0 + keep);
            assert(out@ =~= path@.take(found.0 + keep));
            out.push_str(".");
            out.push_str(extension);
            out
        },
        None => path.to_owned(),
    }
}

} // verus!
