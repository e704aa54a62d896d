//! What holds of every path.
use crate::paths::{
    absolute, below, components, counts, extension_of, file_name, joined_path, last_dot, non_empty,
    normalized, path_extension, path_parent, path_stem, path_with_extension, piece_end, resolved,
    root_path, shown_path, spots, spots_from, stem_of, texts_at, under, written,
};
use crate::text::{
    first_char, joined, lemma_first_char, lemma_first_char_is, lemma_split_on, split_on,
};
use vstd::prelude::*;

verus! {

/// The names among the pieces between slashes.
spec fn named(pieces: Seq<Seq<char>>, first: bool) -> Seq<Seq<char>>
    decreases pieces.len(),
{
    if pieces.len() == 0 {
        pieces
    } else {
        let rest = named(pieces.drop_first(), false);
        if pieces[0].len() > 0 && (first || pieces[0] != "."@) {
            seq![pieces[0]] + rest
        } else {
            rest
        }
    }
}

/// Components are the names between slashes.
proof fn lemma_names(path: Seq<char>, from: int)
    requires
        0 <= from <= path.len(),
    ensures
        texts_at(path, spots_from(path, from)) == named(
            split_on(path.skip(from), '/'),
            from == 0,
        ),
    decreases path.len() - from,
{
    let rest = path.skip(from);
    lemma_first_char(rest, '/');
    let end = piece_end(path, from);
    let pieces = split_on(rest, '/');
    assert(pieces[0] =~= path.subrange(from, end));
    let behind = spots_from(path, end + 1);
    if end < path.len() {
        lemma_names(path, end + 1);
        assert(rest.skip(end - from + 1) =~= path.skip(end + 1));
        assert(pieces.drop_first() =~= split_on(path.skip(end + 1), '/'));
    } else {
        assert(pieces.drop_first() =~= Seq::<Seq<char>>::empty());
        assert(behind =~= Seq::<(int, int)>::empty());
    }
    assert(texts_at(path, behind) =~= named(pieces.drop_first(), false));
    if counts(path, from, end) {
        assert(texts_at(path, spots_from(path, from)) =~= seq![pieces[0]] + texts_at(path, behind));
    }
}

/// A piece without slashes behind a slash is the last piece.
proof fn lemma_split_behind(front: Seq<char>, last: Seq<char>)
    requires
        !last.contains('/'),
    ensures
        split_on(front + "/"@ + last, '/') == split_on(front, '/').push(last),
    decreases front.len(),
{
    reveal_strlit("/");
    let whole = front + "/"@ + last;
    lemma_first_char(front, '/');
    let at = first_char(front, '/');
    if at < front.len() {
        assert(whole[at] == '/');
        lemma_first_char_is(whole, '/', at);
        let rest = front.skip(at + 1);
        lemma_split_behind(rest, last);
        assert(whole.skip(at + 1) =~= rest + "/"@ + last);
        assert(whole.take(at) =~= front.take(at));
        assert(split_on(whole, '/') =~= split_on(front, '/').push(last));
    } else {
        assert(whole[at] == '/');
        lemma_first_char_is(whole, '/', at);
        assert(whole.take(at) =~= front);
        assert(whole.skip(at + 1) =~= last);
        assert forall|k: int| 0 <= k < last.len() implies last[k] != '/' by {
            if last[k] == '/' {
                assert(last.contains('/'));
            }
        }
        lemma_first_char_is(last, '/', last.len() as int);
        assert(split_on(last, '/') =~= seq![last]);
        assert(split_on(whole, '/') =~= seq![front] + seq![last]);
        assert(split_on(front, '/') =~= seq![front]);
        assert(split_on(front, '/').push(last) =~= seq![front] + seq![last]);
    }
}

/// Splitting undoes joining.
proof fn lemma_split_joined(parts: Seq<Seq<char>>)
    requires
        parts.len() > 0,
        forall|k: int| 0 <= k < parts.len() ==> !(#[trigger] parts[k]).contains('/'),
    ensures
        split_on(joined(parts, "/"@), '/') == parts,
    decreases parts.len(),
{
    if parts.len() == 1 {
        let only = parts[0];
        assert forall|k: int| 0 <= k < only.len() implies only[k] != '/' by {
            if only[k] == '/' {
                assert(only.contains('/'));
            }
        }
        lemma_first_char_is(only, '/', only.len() as int);
        assert(parts =~= seq![only]);
    } else {
        let init = parts.drop_last();
        assert forall|k: int| 0 <= k < init.len() implies !(#[trigger] init[k]).contains('/') by {
            assert(parts[k] == init[k]);
        }
        lemma_split_joined(init);
        assert(!parts[parts.len() - 1].contains('/'));
        lemma_split_behind(joined(init, "/"@), parts.last());
        assert(init.push(parts.last()) =~= parts);
    }
}

/// Names that are no dots are all components.
proof fn lemma_named_all(parts: Seq<Seq<char>>, first: bool)
    requires
        forall|k: int| 0 <= k < parts.len() ==> (#[trigger] parts[k]).len() > 0 && parts[k] != "."@,
    ensures
        named(parts, first) == parts,
    decreases parts.len(),
{
    if parts.len() > 0 {
        let rest = parts.drop_first();
        assert forall|k: int| 0 <= k < rest.len() implies (#[trigger] rest[k]).len() > 0 && rest[k]
            != "."@ by {
            assert(parts[k + 1] == rest[k]);
        }
        lemma_named_all(rest, false);
        assert(parts[0].len() > 0);
        assert(seq![parts[0]] + rest =~= parts);
    }
}

/// Whether no component is empty, and none holds a slash but the root.
spec fn rooted(parts: Seq<Seq<char>>) -> bool {
    forall|k: int|
        0 <= k < parts.len() ==> {
            &&& (#[trigger] parts[k]).len() > 0
            &&& parts[k].contains('/') ==> k == 0 && parts[k] == "/"@
        }
}

/// Whether components are names, but for the root that they may start with.
pub open spec fn clean(parts: Seq<Seq<char>>) -> bool {
    forall|k: int|
        0 <= k < parts.len() ==> {
            &&& (#[trigger] parts[k]).len() > 0
            &&& parts[k] != "."@
            &&& parts[k] != ".."@
            &&& parts[k].contains('/') ==> k == 0 && parts[k] == "/"@
        }
}

/// The names among pieces are pieces that are not empty.
proof fn lemma_named_among(pieces: Seq<Seq<char>>, first: bool)
    requires
        forall|k: int| 0 <= k < pieces.len() ==> !(#[trigger] pieces[k]).contains('/'),
    ensures
        forall|k: int|
            0 <= k < named(pieces, first).len() ==> (#[trigger] named(pieces, first)[k]).len() > 0
                && !named(pieces, first)[k].contains('/'),
    decreases pieces.len(),
{
    if pieces.len() > 0 {
        let rest = pieces.drop_first();
        assert forall|k: int| 0 <= k < rest.len() implies !(#[trigger] rest[k]).contains('/') by {
            assert(pieces[k + 1] == rest[k]);
        }
        lemma_named_among(rest, false);
        assert(!pieces[0].contains('/'));
        let all = named(pieces, first);
        let inner = named(rest, false);
        assert forall|k: int| 0 <= k < all.len() implies (#[trigger] all[k]).len() > 0
            && !all[k].contains('/') by {
            if all.len() > inner.len() {
                if k > 0 {
                    assert(all[k] == inner[k - 1]);
                }
            } else {
                assert(all[k] == inner[k]);
            }
        }
    }
}

/// The components of a path are rooted.
proof fn lemma_components(path: Seq<char>)
    ensures
        rooted(components(path)),
{
    reveal_strlit("/");
    let parts = components(path);
    if absolute(path) {
        lemma_names(path, 1);
        lemma_split_on(path.skip(1), '/');
        lemma_named_among(split_on(path.skip(1), '/'), false);
        let rest = texts_at(path, spots_from(path, 1));
        assert(path.subrange(0, 1) =~= "/"@);
        assert(parts =~= seq!["/"@] + rest);
        assert forall|k: int| 0 <= k < parts.len() implies (#[trigger] parts[k]).len() > 0 && (
        parts[k].contains('/') ==> k == 0 && parts[k] == "/"@) by {
            if k > 0 {
                assert(parts[k] == rest[k - 1]);
            }
        }
    } else {
        lemma_names(path, 0);
        assert(path.skip(0) =~= path);
        lemma_split_on(path, '/');
        lemma_named_among(split_on(path, '/'), true);
    }
}

/// What is left of rooted components is clean.
proof fn lemma_resolved_clean(parts: Seq<Seq<char>>)
    requires
        rooted(parts),
    ensures
        clean(resolved(parts)),
        resolved(parts).len() <= parts.len(),
    decreases parts.len(),
{
    if parts.len() > 0 {
        let before = parts.drop_last();
        assert forall|k: int| 0 <= k < before.len() implies (#[trigger] before[k]).len() > 0 && (
        before[k].contains('/') ==> k == 0 && before[k] == "/"@) by {
            assert(parts[k] == before[k]);
        }
        lemma_resolved_clean(before);
        let init = resolved(before);
        let last = parts.last();
        assert(parts[parts.len() - 1] == last);
        let all = resolved(parts);
        assert forall|k: int| 0 <= k < all.len() implies ({
            &&& (#[trigger] all[k]).len() > 0
            &&& all[k] != "."@
            &&& all[k] != ".."@
            &&& all[k].contains('/') ==> k == 0 && all[k] == "/"@
        }) by {
            if k < init.len() {
                assert(all[k] == init[k]);
            }
        }
    }
}

/// Nothing is left to take away from clean components.
proof fn lemma_resolved_same(parts: Seq<Seq<char>>)
    requires
        clean(parts),
    ensures
        resolved(parts) == parts,
    decreases parts.len(),
{
    if parts.len() > 0 {
        let before = parts.drop_last();
        assert forall|k: int| 0 <= k < before.len() implies ({
            &&& (#[trigger] before[k]).len() > 0
            &&& before[k] != "."@
            &&& before[k] != ".."@
            &&& before[k].contains('/') ==> k == 0 && before[k] == "/"@
        }) by {
            assert(parts[k] == before[k]);
        }
        lemma_resolved_same(before);
        assert(parts[parts.len() - 1] == parts.last());
        assert(before.push(parts.last()) =~= parts);
    }
}

/// Clean components can be read back from the path that they are written as.
pub proof fn law_written_components(parts: Seq<Seq<char>>)
    requires
        clean(parts),
    ensures
        components(written(parts)) == parts,
{
    reveal_strlit("/");
    let path = written(parts);
    let slash = "/"@;
    if parts.len() > 0 && parts[0] == slash {
        let rest = parts.drop_first();
        let tail = joined(rest, slash);
        assert(path.skip(1) =~= tail);
        assert(path[0] == '/');
        lemma_names(path, 1);
        assert forall|k: int| 0 <= k < rest.len() implies !(#[trigger] rest[k]).contains('/')
            && rest[k].len() > 0 && rest[k] != "."@ by {
            assert(parts[k + 1] == rest[k]);
        }
        if rest.len() > 0 {
            lemma_split_joined(rest);
            lemma_named_all(rest, false);
        } else {
            lemma_first_char(tail, '/');
            assert(split_on(tail, '/') =~= seq![tail]);
            assert(seq![tail].drop_first() =~= Seq::<Seq<char>>::empty());
            assert(named(seq![tail].drop_first(), false) =~= rest);
            assert(named(seq![tail], false) =~= rest);
        }
        assert(path.subrange(0, 1) =~= slash);
        assert(components(path) =~= seq![slash] + texts_at(path, spots_from(path, 1)));
        assert(seq![slash] + rest =~= parts);
    } else {
        assert forall|k: int| 0 <= k < parts.len() implies !(#[trigger] parts[k]).contains('/')
            && parts[k].len() > 0 && parts[k] != "."@ by {
        }
        assert(path.skip(0) =~= path);
        lemma_names(path, 0);
        if parts.len() > 0 {
            lemma_split_joined(parts);
            lemma_named_all(parts, true);
            lemma_first_char(path, '/');
            let pieces = split_on(path, '/');
            assert(pieces[0] == parts[0]);
            if path.len() > 0 && path[0] == '/' {
                lemma_first_char_is(path, '/', 0);
                assert(pieces[0] == path.take(0));
            }
            assert(!absolute(path));
        } else {
            lemma_first_char(path, '/');
            assert(split_on(path, '/') =~= seq![path]);
            assert(seq![path].drop_first() =~= Seq::<Seq<char>>::empty());
            assert(named(seq![path].drop_first(), false) =~= parts);
            assert(named(seq![path], true) =~= parts);
        }
    }
}

/// Normalizing leaves no dots and no double dots.
pub proof fn law_normalized_is_clean(path: Seq<char>)
    ensures
        clean(components(normalized(path))),
{
    lemma_components(path);
    lemma_resolved_clean(components(path));
    law_written_components(resolved(components(path)));
}

/// Normalizing a second time changes nothing.
pub proof fn law_normalize_twice(path: Seq<char>)
    ensures
        normalized(normalized(path)) == normalized(path),
{
    lemma_components(path);
    let parts = resolved(components(path));
    lemma_resolved_clean(components(path));
    law_written_components(parts);
    lemma_resolved_same(parts);
}

// ---------------------------------------------------------------------------
// Paths below others
// ---------------------------------------------------------------------------

/// A piece ends at the next slash.
proof fn lemma_piece(path: Seq<char>, from: int)
    requires
        0 <= from <= path.len(),
    ensures
        from <= piece_end(path, from) <= path.len(),
        forall|k: int| from <= k < piece_end(path, from) ==> path[k] != '/',
        piece_end(path, from) < path.len() ==> path[piece_end(path, from)] == '/',
{
    let rest = path.skip(from);
    lemma_first_char(rest, '/');
    assert forall|k: int| from <= k < piece_end(path, from) implies path[k] != '/' by {
        assert(rest[k - from] == path[k]);
    }
}

/// Where a slash is the next, a piece ends there.
proof fn lemma_piece_is(path: Seq<char>, from: int, end: int)
    requires
        0 <= from <= end <= path.len(),
        forall|k: int| from <= k < end ==> path[k] != '/',
        end < path.len() ==> path[end] == '/',
    ensures
        piece_end(path, from) == end,
{
    lemma_piece(path, from);
    let found = piece_end(path, from);
    if found < end {
        assert(path[found] != '/');
    }
}

/// Components lie in the path, one behind the other.
proof fn lemma_spots_within(path: Seq<char>, from: int)
    requires
        0 <= from,
    ensures
        forall|i: int|
            0 <= i < spots_from(path, from).len() ==> from <= (#[trigger] spots_from(path, from)[i]).0
                < spots_from(path, from)[i].1 <= path.len(),
    decreases path.len() + 1 - from,
{
    if from <= path.len() {
        lemma_piece(path, from);
        let end = piece_end(path, from);
        lemma_spots_within(path, end + 1);
        let all = spots_from(path, from);
        let rest = spots_from(path, end + 1);
        assert forall|i: int| 0 <= i < all.len() implies from <= (#[trigger] all[i]).0 < all[i].1
            <= path.len() by {
            if counts(path, from, end) {
                if i > 0 {
                    assert(all[i] == rest[i - 1]);
                }
            } else {
                assert(all[i] == rest[i]);
            }
        }
    }
}

/// The components of a path up to a slash are those of what stands before it.
proof fn lemma_spots_front(front: Seq<char>, path: Seq<char>, from: int)
    requires
        0 <= from <= front.len() < path.len(),
        forall|k: int| 0 <= k < front.len() ==> front[k] == path[k],
        path[front.len() as int] == '/',
    ensures
        spots_from(path, from) == spots_from(front, from) + spots_from(path, (front.len() + 1) as int),
    decreases front.len() - from,
{
    let size = front.len() as int;
    lemma_piece(front, from);
    let end = piece_end(front, from);
    lemma_piece_is(path, from, end);
    assert(front.subrange(from, end) =~= path.subrange(from, end));
    let behind = spots_from(path, size + 1);
    if end < size {
        lemma_spots_front(front, path, end + 1);
    } else {
        assert(spots_from(front, end + 1) =~= Seq::<(int, int)>::empty());
        assert(spots_from(front, end + 1) + behind =~= behind);
    }
    if counts(front, from, end) {
        assert(spots_from(path, from) =~= spots_from(front, from) + behind);
    }
}

/// The components of a path behind another one.
proof fn lemma_joined_spots(base: Seq<char>, rest: Seq<char>)
    requires
        base.len() > 0,
        !absolute(rest),
    ensures
        ({
            let path = joined_path(base, rest);
            &&& spots(path) == spots(base) + spots_from(path, path.len() - rest.len())
            &&& path.len() - rest.len() >= base.len()
            &&& path.skip(path.len() - rest.len()) == rest
            &&& path.take(base.len() as int) == base
        }),
{
    reveal_strlit("/");
    let path = joined_path(base, rest);
    let at = path.len() - rest.len();
    assert(path.skip(at) =~= rest);
    assert(path.take(base.len() as int) =~= base);
    assert(path[0] == base[0]);
    let from: int = if absolute(base) {
        1
    } else {
        0
    };
    if base.last() != '/' {
        lemma_spots_front(base, path, from);
        assert(spots(path) =~= spots(base) + spots_from(path, at));
    } else {
        lemma_piece(base, base.len() as int);
        assert(spots_from(base, (base.len() + 1) as int) =~= Seq::<(int, int)>::empty());
        assert(spots_from(base, base.len() as int) =~= Seq::<(int, int)>::empty());
        if base.len() == 1 {
            assert(spots(path) =~= spots(base) + spots_from(path, at));
        } else {
            let front = base.drop_last();
            assert(path[front.len() as int] == '/');
            lemma_spots_front(front, path, from);
            lemma_spots_front(front, base, from);
            assert(spots(path) =~= spots(base) + spots_from(path, at));
        }
    }
}

/// The components of a path behind another one are those of the other and then its
/// own.
pub proof fn law_joined_is_under(base: Seq<char>, rest: Seq<char>)
    requires
        !absolute(rest),
    ensures
        under(joined_path(base, rest), base),
{
    let path = joined_path(base, rest);
    if base.len() == 0 {
        lemma_piece(base, 0);
        assert(spots_from(base, 1) =~= Seq::<(int, int)>::empty());
        assert(components(base) =~= Seq::<Seq<char>>::empty());
    } else {
        lemma_joined_spots(base, rest);
        lemma_base_texts(base, path, path.len() - rest.len());
    }
}

/// The components of a path start with those of the path that it starts with.
proof fn lemma_base_texts(base: Seq<char>, path: Seq<char>, at: int)
    requires
        base.len() > 0,
        base.len() <= path.len(),
        path.take(base.len() as int) == base,
        spots(path) == spots(base) + spots_from(path, at),
    ensures
        components(path) == components(base) + texts_at(path, spots_from(path, at)),
{
    let own = spots(base);
    lemma_spots_within(base, 0);
    lemma_spots_within(base, 1);
    assert forall|i: int| 0 <= i < own.len() implies 0 <= (#[trigger] own[i]).0 <= own[i].1
        <= base.len() by {
        if absolute(base) && i > 0 {
            assert(own[i] == spots_from(base, 1)[i - 1]);
        }
    }
    assert forall|i: int| 0 <= i < own.len() implies #[trigger] base.subrange(own[i].0, own[i].1)
        == path.subrange(own[i].0, own[i].1) by {
        let whole = path.take(base.len() as int);
        assert(0 <= own[i].0 <= own[i].1 <= base.len());
        assert(whole.subrange(own[i].0, own[i].1) =~= path.subrange(own[i].0, own[i].1));
    }
    assert(components(path) =~= components(base) + texts_at(path, spots_from(path, at)));
}

/// Whether a path that is not absolute starts and ends with a name or a double dot.
pub open spec fn starts_and_ends_with_names(rest: Seq<char>) -> bool {
    &&& rest.len() > 0
    &&& rest[0] != '/'
    &&& rest.last() != '/'
    &&& rest != "."@
    &&& !(rest.len() > 1 && rest[0] == '.' && rest[1] == '/')
    &&& !(rest.len() > 1 && rest.last() == '.' && rest[rest.len() - 2] == '/')
}

/// The last component of a path that ends with a name ends where the path does.
proof fn lemma_last_spot(path: Seq<char>, from: int)
    requires
        0 <= from < path.len(),
        path.last() != '/',
        !(path.last() == '.' && from > 0 && from == path.len() - 1),
        !(path.last() == '.' && from <= path.len() - 2 && path[path.len() - 2] == '/'),
    ensures
        spots_from(path, from).len() > 0,
        spots_from(path, from).last().1 == path.len(),
    decreases path.len() - from,
{
    reveal_strlit(".");
    lemma_piece(path, from);
    let end = piece_end(path, from);
    if end == path.len() {
        if path.subrange(from, end) == "."@ {
            assert(path.subrange(from, end).len() == 1);
            assert(path.subrange(from, end)[0] == path[from]);
        }
        assert(counts(path, from, end));
        assert(spots_from(path, end + 1) =~= Seq::<(int, int)>::empty());
    } else {
        assert(path[path.len() - 1] != '/');
        lemma_last_spot(path, end + 1);
    }
}

/// The first component of a path that starts with a name starts where it does.
proof fn lemma_first_spot(path: Seq<char>, from: int)
    requires
        0 <= from < path.len(),
        path[from] != '/',
        from == 0 || path[from] != '.' || (from + 1 < path.len() && path[from + 1] != '/'),
    ensures
        spots_from(path, from).len() > 0,
        spots_from(path, from)[0].0 == from,
{
    reveal_strlit(".");
    lemma_piece(path, from);
    let end = piece_end(path, from);
    assert(from < end);
    if path.subrange(from, end) == "."@ {
        assert(path.subrange(from, end).len() == 1);
        assert(path.subrange(from, end)[0] == path[from]);
    }
    assert(counts(path, from, end));
}

/// What stands below a path is what was put behind it.
pub proof fn law_below_joined(base: Seq<char>, rest: Seq<char>)
    requires
        starts_and_ends_with_names(rest),
    ensures
        below(joined_path(base, rest), base) == rest,
{
    reveal_strlit(".");
    let path = joined_path(base, rest);
    if base.len() == 0 {
        lemma_piece(base, 0);
        assert(spots_from(base, 1) =~= Seq::<(int, int)>::empty());
        assert(spots(base) =~= Seq::<(int, int)>::empty());
        assert(path =~= rest);
        lemma_first_spot(path, 0);
        lemma_last_spot(path, 0);
        assert(path.subrange(0, path.len() as int) =~= rest);
    } else {
        lemma_joined_spots(base, rest);
        let at = path.len() - rest.len();
        assert forall|k: int| 0 <= k < rest.len() implies path[at + k] == rest[k] by {
            assert(path.skip(at)[k] == path[at + k]);
        }
        assert(path.last() == rest.last());
        if rest.len() == 1 && rest[0] == '.' {
            assert(rest =~= "."@);
        }
        lemma_first_spot(path, at);
        lemma_last_spot(path, at);
        let own = spots(path);
        let depth = spots(base).len() as int;
        assert(own[depth] == spots_from(path, at)[0]);
        assert(own.last() == spots_from(path, at).last());
        assert(path.subrange(at, path.len() as int) =~= path.skip(at));
    }
}

// ---------------------------------------------------------------------------
// Names
// ---------------------------------------------------------------------------

/// Whether a text can be the name of a file.
pub open spec fn is_name(name: Seq<char>) -> bool {
    &&& name.len() > 0
    &&& !name.contains('/')
    &&& name != "."@
    &&& name != ".."@
}

/// A name behind a path is its only further component.
proof fn lemma_name_spot(base: Seq<char>, name: Seq<char>)
    requires
        base.len() > 0,
        is_name(name),
    ensures
        ({
            let path = joined_path(base, name);
            let at = path.len() - name.len();
            &&& !absolute(name)
            &&& spots(path) == spots(base).push((at, path.len() as int))
            &&& components(path) == components(base).push(name)
            &&& path.take(base.len() as int) == base
            &&& at >= base.len()
        }),
{
    reveal_strlit(".");
    let path = joined_path(base, name);
    let at = path.len() - name.len();
    assert(name[0] != '/') by {
        if name[0] == '/' {
            assert(name.contains('/'));
        }
    }
    lemma_joined_spots(base, name);
    assert forall|k: int| at <= k < path.len() implies path[k] != '/' by {
        assert(path.skip(at)[k - at] == path[k]);
        if path[k] == '/' {
            assert(name.contains(name[k - at]));
        }
    }
    lemma_piece_is(path, at, path.len() as int);
    assert(path.subrange(at, path.len() as int) =~= path.skip(at));
    assert(counts(path, at, path.len() as int));
    assert(spots_from(path, (path.len() + 1) as int) =~= Seq::<(int, int)>::empty());
    assert(spots_from(path, at) =~= seq![(at, path.len() as int)]);
    lemma_base_texts(base, path, at);
    assert(spots(path) =~= spots(base).push((at, path.len() as int)));
    assert(components(path) =~= components(base).push(name));
}

/// A file in a directory has the name that was put behind the path of the directory,
/// with its stem and its extension.
pub proof fn law_name_of_joined(base: Seq<char>, name: Seq<char>)
    requires
        base.len() > 0,
        is_name(name),
    ensures
        file_name(joined_path(base, name)) == Some(name),
        path_extension(joined_path(base, name)) == extension_of(name),
        path_stem(joined_path(base, name)) == Some(stem_of(name)),
        components(joined_path(base, name)) == components(base).push(name),
{
    reveal_strlit("/");
    lemma_name_spot(base, name);
    assert(name != "/"@) by {
        if name == "/"@ {
            assert(name[0] == '/');
            assert(name.contains('/'));
        }
    }
}

/// The directory of a file is what stood before its name.
pub proof fn law_parent_of_joined(base: Seq<char>, name: Seq<char>)
    requires
        is_name(name),
        base == "/"@ || starts_and_ends_with_names(base) || (base.len() > 1 && base[0] == '/'
            && starts_and_ends_with_names(base.skip(1))),
    ensures
        path_parent(joined_path(base, name)) == Some(base),
{
    reveal_strlit("/");
    reveal_strlit(".");
    let path = joined_path(base, name);
    lemma_name_spot(base, name);
    assert(name != "/"@) by {
        if name == "/"@ {
            assert(name[0] == '/');
            assert(name.contains('/'));
        }
    }
    let own = spots(base);
    if base == "/"@ {
        lemma_piece(base, 1);
        assert(spots_from(base, 2) =~= Seq::<(int, int)>::empty());
        assert(spots_from(base, 1) =~= Seq::<(int, int)>::empty());
        assert(own =~= seq![(0int, 1int)]);
        assert(path.subrange(0, 1) =~= base);
    } else if absolute(base) {
        let rest = base.skip(1);
        assert(rest.last() == base.last());
        assert(rest[0] == base[1]);
        if rest.len() > 1 {
            assert(rest[rest.len() - 2] == base[base.len() - 2]);
        } else if base.last() == '.' {
            assert(rest =~= "."@);
        }
        lemma_last_spot(base, 1);
        assert(own.last().1 == base.len());
        assert(path.subrange(0, base.len() as int) =~= path.take(base.len() as int));
    } else {
        lemma_last_spot(base, 0);
        assert(own.last().1 == base.len());
        assert(path.subrange(0, base.len() as int) =~= path.take(base.len() as int));
    }
}

/// A file with another extension stands in the same directory and keeps its stem.
pub proof fn law_other_extension(base: Seq<char>, name: Seq<char>, extension: Seq<char>)
    requires
        base.len() > 0,
        is_name(name),
        !extension.contains('/'),
    ensures
        path_with_extension(joined_path(base, name), extension) == joined_path(
            base,
            stem_of(name) + "."@ + extension,
        ),
{
    reveal_strlit("/");
    let path = joined_path(base, name);
    law_name_of_joined(base, name);
    lemma_name_spot(base, name);
    law_extension(name);
    let at = path.len() - name.len();
    let stem = stem_of(name);
    let next = stem + "."@ + extension;
    assert(spots(path).last() == (at, path.len() as int));
    lemma_last_dot(name);
    assert(stem =~= name.take(stem.len() as int));
    assert(stem.len() > 0);
    assert(next[0] == stem[0]);
    assert(!absolute(next));
    let front = if base.last() == '/' {
        base
    } else {
        base + "/"@
    };
    assert(path =~= front + name);
    lemma_other_ending(front, name, stem, "."@ + extension);
    assert(front + (stem + ("."@ + extension)) =~= front + next);
    assert(path.take(at + stem.len()) + "."@ + extension =~= path.take(at + stem.len()) + ("."@
        + extension));
}

/// A text that is cut in its last part and goes on otherwise.
proof fn lemma_other_ending(
    front: Seq<char>,
    last: Seq<char>,
    kept: Seq<char>,
    ending: Seq<char>,
)
    requires
        kept.len() <= last.len(),
        kept == last.take(kept.len() as int),
    ensures
        (front + last).take((front.len() + kept.len()) as int) + ending == front + (kept + ending),
{
    assert((front + last).take((front.len() + kept.len()) as int) + ending =~= front + (kept
        + ending));
}

/// Where the last dot of a name is.
proof fn lemma_last_dot(name: Seq<char>)
    ensures
        -1 <= last_dot(name) < name.len(),
        last_dot(name) >= 0 ==> name[last_dot(name)] == '.',
        forall|k: int| last_dot(name) < k < name.len() ==> name[k] != '.',
    decreases name.len(),
{
    if name.len() > 0 && name.last() != '.' {
        let before = name.drop_last();
        lemma_last_dot(before);
        assert(last_dot(name) == last_dot(before));
        assert forall|k: int| last_dot(name) < k < name.len() implies name[k] != '.' by {
            if k < before.len() {
                assert(before[k] == name[k]);
            }
        }
    }
}

/// A name with an extension is its stem, a dot and the extension, which holds no dot;
/// one without has no dot but perhaps at its start.
pub proof fn law_extension(name: Seq<char>)
    ensures
        match extension_of(name) {
            Some(extension) => {
                &&& name == stem_of(name) + "."@ + extension
                &&& stem_of(name).len() > 0
                &&& !extension.contains('.')
            },
            None => {
                &&& stem_of(name) == name
                &&& forall|k: int| 0 < k < name.len() ==> name[k] != '.'
            },
        },
{
    reveal_strlit(".");
    lemma_last_dot(name);
    match extension_of(name) {
        Some(extension) => {
            assert(name =~= stem_of(name) + "."@ + extension);
            if extension.contains('.') {
                let k = choose|k: int| 0 <= k < extension.len() && extension[k] == '.';
                assert(name[last_dot(name) + 1 + k] == '.');
            }
        },
        None => {},
    }
}

// ---------------------------------------------------------------------------
// Dots
// ---------------------------------------------------------------------------

/// A dot changes nothing, a double dot takes away the name before it, and nothing
/// stands above the root.
pub proof fn law_dots(parts: Seq<Seq<char>>, name: Seq<char>)
    requires
        name != "."@,
        name != ".."@,
        name != "/"@,
    ensures
        resolved(parts.push("."@)) == resolved(parts),
        resolved(parts.push(name)) == resolved(parts).push(name),
        resolved(parts.push(name).push(".."@)) == resolved(parts),
        resolved(seq!["/"@, ".."@]) == seq!["/"@],
        resolved(seq![".."@]) == Seq::<Seq<char>>::empty(),
{
    reveal_strlit(".");
    reveal_strlit("..");
    reveal_strlit("/");
    assert("."@.len() == 1 && ".."@.len() == 2 && "/"@[0] == '/' && "."@[0] == '.');
    assert(parts.push("."@).drop_last() =~= parts);
    assert(parts.push(name).drop_last() =~= parts);
    assert(parts.push(name).push(".."@).drop_last() =~= parts.push(name));
    assert(resolved(parts).push(name).drop_last() =~= resolved(parts));
    let one = parts.push(name);
    assert(resolved(one) == resolved(parts).push(name));
    assert(resolved(one).last() == name);
    assert(one.push(".."@).last() == ".."@);
    assert(resolved(one.push(".."@)) == resolved(one).drop_last());
    let none = Seq::<Seq<char>>::empty();
    assert(seq!["/"@, ".."@].drop_last() =~= seq!["/"@]);
    assert(seq!["/"@].drop_last() =~= none);
    assert(resolved(none) =~= none);
    assert(resolved(seq!["/"@]) =~= seq!["/"@]);
    assert(seq![".."@].drop_last() =~= none);
    assert(resolved(seq![".."@]) =~= none);
}

/// One more piece is one more name where it counts.
proof fn lemma_named_push(pieces: Seq<Seq<char>>, piece: Seq<char>, first: bool)
    ensures
        named(pieces.push(piece), first) == if piece.len() > 0 && (piece != "."@ || (first
            && pieces.len() == 0)) {
            named(pieces, first).push(piece)
        } else {
            named(pieces, first)
        },
    decreases pieces.len(),
{
    let all = pieces.push(piece);
    if pieces.len() == 0 {
        assert(all.drop_first() =~= Seq::<Seq<char>>::empty());
        assert(named(all.drop_first(), false) =~= Seq::<Seq<char>>::empty());
        assert(all[0] == piece);
        if piece.len() > 0 && (first || piece != "."@) {
            assert(named(all, first) =~= named(pieces, first).push(piece));
        } else {
            assert(named(all, first) =~= named(pieces, first));
        }
    } else {
        let rest = pieces.drop_first();
        assert(all.drop_first() =~= rest.push(piece));
        lemma_named_push(rest, piece, false);
        if piece.len() > 0 && piece != "."@ {
            assert(named(all, first) =~= named(pieces, first).push(piece));
        } else {
            assert(named(all, first) =~= named(pieces, first));
        }
    }
}

/// What is left of the pieces of a path is left of its names.
proof fn lemma_resolved_names(pieces: Seq<Seq<char>>)
    ensures
        resolved(named(pieces, true)) == resolved(non_empty(pieces)),
    decreases pieces.len(),
{
    if pieces.len() > 0 {
        let before = pieces.drop_last();
        let last = pieces.last();
        lemma_resolved_names(before);
        lemma_named_push(before, last, true);
        assert(before.push(last) =~= pieces);
        let names = named(before, true);
        let parts = non_empty(before);
        assert(names.push(last).drop_last() =~= names);
        assert(parts.push(last).drop_last() =~= parts);
    } else {
        assert(named(pieces, true) =~= non_empty(pieces));
    }
}

/// A path that is not absolute is shown without dots and double dots, as a dot where
/// nothing is left of it.
pub proof fn law_shown_path(path: Seq<char>)
    requires
        !absolute(path),
    ensures
        shown_path(path) == if normalized(path).len() == 0 {
            "."@
        } else {
            normalized(path)
        },
{
    reveal_strlit("/");
    lemma_names(path, 0);
    assert(path.skip(0) =~= path);
    lemma_resolved_names(split_on(path, '/'));
    let names = resolved(components(path));
    lemma_components(path);
    lemma_resolved_clean(components(path));
    lemma_split_on(path, '/');
    lemma_named_among(split_on(path, '/'), true);
    lemma_resolved_among(named(split_on(path, '/'), true));
    if names.len() > 0 {
        assert(names[0] != "/"@) by {
            if names[0] == "/"@ {
                assert(names[0][0] == '/');
                assert(names[0].contains('/'));
            }
        }
        lemma_joined_filled(names);
    }
}

/// What is left has no slashes where there were none.
proof fn lemma_resolved_among(parts: Seq<Seq<char>>)
    requires
        forall|k: int| 0 <= k < parts.len() ==> !(#[trigger] parts[k]).contains('/'),
    ensures
        forall|k: int| 0 <= k < resolved(parts).len() ==> !(#[trigger] resolved(parts)[k]).contains(
            '/',
        ),
    decreases parts.len(),
{
    if parts.len() > 0 {
        let before = parts.drop_last();
        assert forall|k: int| 0 <= k < before.len() implies !(#[trigger] before[k]).contains('/') by {
            assert(parts[k] == before[k]);
        }
        lemma_resolved_among(before);
        assert(!parts[parts.len() - 1].contains('/'));
        let init = resolved(before);
        let all = resolved(parts);
        assert forall|k: int| 0 <= k < all.len() implies !(#[trigger] all[k]).contains('/') by {
            if k < init.len() {
                assert(all[k] == init[k]);
            }
        }
    }
}

/// Clean names are written as something.
proof fn lemma_joined_filled(names: Seq<Seq<char>>)
    requires
        names.len() > 0,
        clean(names),
    ensures
        joined(names, "/"@).len() > 0,
{
    reveal_strlit("/");
    assert(names[0].len() > 0);
}

/// The path of a root is seen from the working directory unless it is absolute.
pub proof fn law_root_path(path: Seq<char>, cwd: Seq<char>)
    ensures
        absolute(path) ==> root_path(path, cwd) == normalized(path),
        !absolute(path) && cwd.len() > 0 && cwd.last() != '/' ==> root_path(path, cwd)
            == normalized(cwd + "/"@ + path),
{
}

} // verus!
