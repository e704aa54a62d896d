//! What holds of all languages and their packs.
use crate::json::{as_text, field, JsonView};
use crate::langpacks::{
    asset_name, download_address, enabled, enabled_languages, filled_in, known_table,
    library_extension, named_asset, next_sync, os_label, pack_text, planned_packs, quoted_all,
    wanted_pack, KnownView, LanguageConfig, SyncEvent, SyncStateView, SyncView,
};
use crate::parser::{
    extension_owner, file_language, grammar_symbol, loaded, named_language, LoadedView,
};
use crate::paths::{joined_path, path_extension};
use crate::syntax::{query_fault, query_of};
use crate::text::{ascii_lower, joined, lists_lowercase, lowercase, replaced, same_ignoring_case};
use vstd::prelude::*;

verus! {

// ---------------------------------------------------------------------------
// Names
// ---------------------------------------------------------------------------

/// Whether two characters are one letter, in small or as a capital, or the same
/// character.
pub open spec fn same_letter(a: char, b: char) -> bool {
    ||| a == b
    ||| 'A' <= a <= 'Z' && b as int == a as int + 32
    ||| 'A' <= b <= 'Z' && a as int == b as int + 32
}

/// Whether two names have the same letters one by one.
pub open spec fn same_name(a: Seq<char>, b: Seq<char>) -> bool {
    &&& a.len() == b.len()
    &&& forall|i: int| 0 <= i < a.len() ==> same_letter(#[trigger] a[i], b[i])
}

/// What the small letter of a character is.
proof fn lemma_lower(c: char)
    ensures
        'A' <= c <= 'Z' ==> ascii_lower(c) as int == c as int + 32,
        !('A' <= c <= 'Z') ==> ascii_lower(c) == c,
{
}

/// Names are compared letter by letter, whatever their case.
pub proof fn law_same_name(a: Seq<char>, b: Seq<char>)
    ensures
        same_ignoring_case(a, b) <==> same_name(a, b),
{
    assert forall|x: char, y: char| (#[trigger] ascii_lower(x) == #[trigger] ascii_lower(y))
        == same_letter(x, y) by {
        lemma_lower(x);
        lemma_lower(y);
    }
    if a.len() == b.len() {
        assert forall|i: int| 0 <= i < a.len() implies (ascii_lower(#[trigger] a[i])
            == ascii_lower(b[i])) == same_letter(a[i], b[i]) by {}
        if same_name(a, b) {
            assert forall|i: int| 0 <= i < a.len() implies ascii_lower(#[trigger] a[i])
                == ascii_lower(b[i]) by {
                assert(same_letter(a[i], b[i]));
            }
        }
    }
}

/// Whether a language is among those that are named; all are where none is named.
pub open spec fn is_named(name: Seq<char>, names: Option<Seq<Seq<char>>>) -> bool {
    names is None || (names->0).len() == 0 || exists|i: int|
        0 <= i < (names->0).len() && same_name(name, #[trigger] (names->0)[i])
}

/// A language is enabled where it is named, and all are where none is named.
proof fn lemma_enabled(name: Seq<char>, names: Option<Seq<Seq<char>>>)
    ensures
        enabled(name, names) <==> is_named(name, names),
{
    match names {
        Some(list) => {
            assert forall|i: int| 0 <= i < list.len() implies same_ignoring_case(
                name,
                #[trigger] list[i],
            ) == same_name(name, list[i]) by {
                law_same_name(name, list[i]);
            }
            if enabled(name, names) && list.len() > 0 {
                let i = choose|i: int|
                    0 <= i < list.len() && same_ignoring_case(name, #[trigger] list[i]);
                assert(same_name(name, list[i]));
            }
            if is_named(name, names) && list.len() > 0 {
                let i = choose|i: int| 0 <= i < list.len() && same_name(name, #[trigger] list[i]);
                assert(same_ignoring_case(name, list[i]));
            }
        },
        None => {},
    }
}

/// The languages that are enabled are those that are named, in their order.
pub proof fn law_enabled_languages(languages: Seq<KnownView>, names: Option<Seq<Seq<char>>>)
    ensures
        enabled_languages(languages, names) == languages.filter(
            |language: KnownView| is_named(language.name, names),
        ),
    decreases languages.len(),
{
    reveal(Seq::filter);
    if languages.len() > 0 {
        law_enabled_languages(languages.drop_last(), names);
        lemma_enabled(languages.last().name, names);
    } else {
        assert(enabled_languages(languages, names) =~= languages.filter(
            |language: KnownView| is_named(language.name, names),
        ));
    }
}

/// Each language that is enabled has a pack of its own under the root, with its
/// description and its queries in it.
pub proof fn law_packs_are_planned(
    root: Seq<char>,
    names: Option<Seq<Seq<char>>>,
    download: bool,
)
    ensures
        ({
            let packs = planned_packs(root, names, download);
            let languages = enabled_languages(known_table(), names);
            &&& packs.len() == languages.len()
            &&& forall|i: int|
                0 <= i < packs.len() ==> {
                    let pack = #[trigger] packs[i];
                    &&& pack.language == languages[i]
                    &&& pack.pack_root == joined_path(root, languages[i].name)
                    &&& pack.config_path == joined_path(pack.pack_root, "language.toml"@)
                    &&& pack.query_path == joined_path(pack.pack_root, "queries.scm"@)
                    &&& pack.allow_download == download
                }
        }),
{
}

// ---------------------------------------------------------------------------
// Placeholders
// ---------------------------------------------------------------------------

/// Whether a text holds no placeholder, not even the start of one.
pub open spec fn plain_text(text: Seq<char>) -> bool {
    forall|i: int| 0 <= i < text.len() ==> #[trigger] text[i] != '{'
}

/// Nothing is replaced before the first place where a placeholder can start.
proof fn lemma_replaced_behind(
    front: Seq<char>,
    text: Seq<char>,
    part: Seq<char>,
    with: Seq<char>,
)
    requires
        plain_text(front),
        part.len() > 0,
        part[0] == '{',
    ensures
        replaced(front + text, part, with) == front + replaced(text, part, with),
    decreases front.len(),
{
    let all = front + text;
    if front.len() == 0 {
        assert(all =~= text);
        assert(front + replaced(text, part, with) =~= replaced(text, part, with));
    } else {
        let rest = front.drop_first();
        assert(plain_text(rest)) by {
            assert forall|i: int| 0 <= i < rest.len() implies #[trigger] rest[i] != '{' by {
                assert(rest[i] == front[i + 1]);
            }
        }
        lemma_replaced_behind(rest, text, part, with);
        assert(all.drop_first() =~= rest + text);
        assert(all[0] == front[0]);
        if all.len() >= part.len() {
            assert(all.take(part.len() as int)[0] == front[0]);
            assert(all.take(part.len() as int) != part);
            assert(replaced(all, part, with) == seq![all[0]] + replaced(
                all.drop_first(),
                part,
                with,
            ));
        } else {
            assert(replaced(all, part, with) == all);
            assert(replaced(text, part, with) == text);
        }
        assert(seq![all[0]] + (rest + replaced(text, part, with)) =~= front + replaced(
            text,
            part,
            with,
        ));
    }
}

/// A placeholder at the start is replaced.
proof fn lemma_replaced_first(text: Seq<char>, part: Seq<char>, with: Seq<char>)
    requires
        part.len() > 0,
    ensures
        replaced(part + text, part, with) == with + replaced(text, part, with),
{
    let all = part + text;
    assert(all.take(part.len() as int) =~= part);
    assert(all.skip(part.len() as int) =~= text);
}

/// Nothing is replaced in a text without placeholders.
proof fn lemma_replaced_plain(text: Seq<char>, part: Seq<char>, with: Seq<char>)
    requires
        plain_text(text),
        part.len() > 0,
        part[0] == '{',
    ensures
        replaced(text, part, with) == text,
{
    lemma_replaced_behind(text, Seq::empty(), part, with);
    assert(text + Seq::<char>::empty() =~= text);
    assert(replaced(Seq::<char>::empty(), part, with) =~= Seq::<char>::empty());
}

/// A name with the three placeholders is filled in piece by piece, whatever stands
/// between them.
pub proof fn law_filled_in(
    front: Seq<char>,
    a: Seq<char>,
    b: Seq<char>,
    behind: Seq<char>,
    os: Seq<char>,
    arch: Seq<char>,
)
    requires
        plain_text(front),
        plain_text(a),
        plain_text(b),
        plain_text(behind),
        plain_text(os_label(os)),
        plain_text(arch),
        plain_text(library_extension(os)),
    ensures
        filled_in(front + "{os}"@ + a + "{arch}"@ + b + "{ext}"@ + behind, os, arch) == front
            + os_label(os) + a + arch + b + library_extension(os) + behind,
{
    reveal_strlit("{os}");
    reveal_strlit("{arch}");
    reveal_strlit("{ext}");
    let label = os_label(os);
    let ext = library_extension(os);
    let p = "{os}"@;
    let q = "{arch}"@;
    let r = "{ext}"@;
    let whole = front + p + a + q + b + r + behind;
    // The operating system.
    let tail = a + q + b + r + behind;
    assert(whole =~= front + (p + tail));
    lemma_replaced_behind(front, p + tail, p, label);
    lemma_replaced_first(tail, p, label);
    lemma_kept_placeholders(a, b, behind, p, label);
    let first = front + label + tail;
    assert(replaced(whole, p, label) =~= first);
    // The architecture.
    let head = front + label + a;
    assert(plain_text(head)) by {
        assert forall|i: int| 0 <= i < head.len() implies #[trigger] head[i] != '{' by {
            if i < front.len() {
                assert(head[i] == front[i]);
            } else if i < front.len() + label.len() {
                assert(head[i] == label[i - front.len()]);
            } else {
                assert(head[i] == a[i - front.len() - label.len()]);
            }
        }
    }
    let last = b + r + behind;
    assert(first =~= head + (q + last));
    lemma_replaced_behind(head, q + last, q, arch);
    lemma_replaced_first(last, q, arch);
    lemma_kept_extension(b, behind, q, arch);
    let second = head + arch + last;
    assert(replaced(first, q, arch) =~= second);
    // The extension.
    let body = head + arch + b;
    assert(plain_text(body)) by {
        assert forall|i: int| 0 <= i < body.len() implies #[trigger] body[i] != '{' by {
            if i < head.len() {
                assert(body[i] == head[i]);
            } else if i < head.len() + arch.len() {
                assert(body[i] == arch[i - head.len()]);
            } else {
                assert(body[i] == b[i - head.len() - arch.len()]);
            }
        }
    }
    assert(second =~= body + (r + behind));
    lemma_replaced_behind(body, r + behind, r, ext);
    lemma_replaced_first(behind, r, ext);
    lemma_replaced_plain(behind, r, ext);
    assert(replaced(second, r, ext) =~= front + label + a + arch + b + ext + behind);
}

/// A text that starts with a placeholder keeps it where another one is replaced.
proof fn lemma_other_placeholder(
    own: Seq<char>,
    text: Seq<char>,
    part: Seq<char>,
    with: Seq<char>,
)
    requires
        own.len() > 1,
        part.len() > 1,
        own[0] == '{',
        part[0] == '{',
        own[1] != part[1],
        plain_text(own.drop_first()),
    ensures
        replaced(own + text, part, with) == own + replaced(text, part, with),
{
    let all = own + text;
    let rest = own.drop_first();
    assert(all.drop_first() =~= rest + text);
    lemma_replaced_behind(rest, text, part, with);
    if all.len() >= part.len() {
        assert(all.take(part.len() as int)[1] == own[1]);
        assert(all.take(part.len() as int) != part);
        assert(replaced(all, part, with) == seq![all[0]] + replaced(all.drop_first(), part, with));
    } else {
        assert(replaced(all, part, with) == all);
        assert(replaced(text, part, with) == text);
    }
    assert(seq![all[0]] + (rest + replaced(text, part, with)) =~= own + replaced(text, part, with));
}

/// The placeholders behind the one for the operating system stay.
proof fn lemma_kept_placeholders(
    a: Seq<char>,
    b: Seq<char>,
    behind: Seq<char>,
    part: Seq<char>,
    with: Seq<char>,
)
    requires
        plain_text(a),
        plain_text(b),
        plain_text(behind),
        part == "{os}"@,
    ensures
        replaced(a + "{arch}"@ + b + "{ext}"@ + behind, part, with) == a + "{arch}"@ + b + "{ext}"@
            + behind,
{
    reveal_strlit("{os}");
    reveal_strlit("{arch}");
    reveal_strlit("{ext}");
    let q = "{arch}"@;
    let r = "{ext}"@;
    let last = b + r + behind;
    assert(a + q + b + r + behind =~= a + (q + last));
    lemma_replaced_behind(a, q + last, part, with);
    assert(plain_text(q.drop_first()));
    lemma_other_placeholder(q, last, part, with);
    assert(last =~= b + (r + behind));
    lemma_replaced_behind(b, r + behind, part, with);
    assert(plain_text(r.drop_first()));
    lemma_other_placeholder(r, behind, part, with);
    lemma_replaced_plain(behind, part, with);
}

/// The placeholder for the extension stays.
proof fn lemma_kept_extension(
    b: Seq<char>,
    behind: Seq<char>,
    part: Seq<char>,
    with: Seq<char>,
)
    requires
        plain_text(b),
        plain_text(behind),
        part == "{arch}"@,
    ensures
        replaced(b + "{ext}"@ + behind, part, with) == b + "{ext}"@ + behind,
{
    reveal_strlit("{arch}");
    reveal_strlit("{ext}");
    let r = "{ext}"@;
    assert(b + r + behind =~= b + (r + behind));
    lemma_replaced_behind(b, r + behind, part, with);
    assert(plain_text(r.drop_first()));
    lemma_other_placeholder(r, behind, part, with);
    lemma_replaced_plain(behind, part, with);
}

/// The name that a new pack gives its binary is, filled in, the name of the binary
/// among the files of a release.
pub proof fn law_pack_names_asset(language: Seq<char>, os: Seq<char>, arch: Seq<char>)
    requires
        plain_text(language),
        plain_text(os),
        plain_text(arch),
    ensures
        filled_in(
            "tree-sitter-"@ + language + "-"@ + "{os}"@ + "-"@ + "{arch}"@ + Seq::<char>::empty()
                + "{ext}"@ + Seq::<char>::empty(),
            os,
            arch,
        ) == asset_name(language, os, arch),
{
    reveal_strlit("tree-sitter-");
    reveal_strlit("-");
    reveal_strlit("darwin");
    reveal_strlit(".dll");
    reveal_strlit(".dylib");
    reveal_strlit(".so");
    let front = "tree-sitter-"@ + language + "-"@;
    assert(plain_text(front)) by {
        assert forall|i: int| 0 <= i < front.len() implies #[trigger] front[i] != '{' by {
            if 12 <= i < 12 + language.len() {
                assert(front[i] == language[i - 12]);
            }
        }
    }
    let none = Seq::<char>::empty();
    law_filled_in(front, "-"@, none, none, os, arch);
    let label = os_label(os);
    let ext = library_extension(os);
    assert(front + label + "-"@ + arch + none + ext + none =~= asset_name(language, os, arch));
}

// ---------------------------------------------------------------------------
// Bringing a pack up to date
// ---------------------------------------------------------------------------

/// How far a pack is.
pub open spec fn sync_stage(state: SyncStateView) -> int {
    match state {
        SyncStateView::MakeDirectory => 0,
        SyncStateView::CheckConfig => 1,
        SyncStateView::WriteConfig => 2,
        SyncStateView::ReadConfig => 3,
        SyncStateView::CheckQuery(_) => 4,
        SyncStateView::WriteQuery(_, _) => 5,
        SyncStateView::CheckParser(_) => 6,
        SyncStateView::Download(_) => 7,
        SyncStateView::Done(_) => 8,
    }
}

/// Whether an event tells that a step failed.
pub open spec fn fails(event: SyncEvent) -> bool {
    match event {
        SyncEvent::Finished(result) => result is Err,
        SyncEvent::Config(result) => result is Err,
        SyncEvent::Found(_) => false,
    }
}

/// A step leads forward or changes nothing. One that failed ends the work with an
/// error, and it ends well only once the binary is there. A description that is
/// there is not written again, and it decides where the binary lies.
pub proof fn law_sync_step(
    plan: SyncView,
    state: SyncStateView,
    event: SyncEvent,
    os: Seq<char>,
    arch: Seq<char>,
)
    ensures
        ({
            let next = next_sync(plan, state, event, os, arch);
            &&& next == state || sync_stage(state) < sync_stage(next)
            &&& fails(event) && next != state ==> next is Done && next->Done_0 is Err
            &&& next is Done && next->Done_0 is Ok && next != state ==> (state is CheckParser
                && event == SyncEvent::Found(true)) || (state is Download
                && event is Finished)
            &&& next is WriteConfig && next != state ==> event == SyncEvent::Found(false)
            &&& next is ReadConfig && next != state ==> event == SyncEvent::Found(true)
                || state is WriteConfig
            &&& next is WriteQuery && next != state ==> state is CheckQuery && next->WriteQuery_0
                == state->CheckQuery_0 && (next->WriteQuery_1 <==> event == SyncEvent::Found(true))
            &&& next is CheckParser && next != state ==> exists|config: LanguageConfig|
                (state == SyncStateView::CheckQuery(config) || state == SyncStateView::WriteQuery(
                    config,
                    true,
                ) || state == SyncStateView::WriteQuery(config, false)) && next->CheckParser_0
                    == joined_path(plan.pack_root, #[trigger] filled_in(config.parser@, os, arch))
            &&& next is Download && next != state ==> state is CheckParser && next->Download_0
                == state->CheckParser_0 && event == SyncEvent::Found(false) && plan.allow_download
        }),
{
    let next = next_sync(plan, state, event, os, arch);
    if next is CheckParser && next != state {
        match state {
            SyncStateView::CheckQuery(config) => {
                assert(next->CheckParser_0 == joined_path(
                    plan.pack_root,
                    filled_in(config.parser@, os, arch),
                ));
            },
            SyncStateView::WriteQuery(config, over) => {
                assert(next->CheckParser_0 == joined_path(
                    plan.pack_root,
                    filled_in(config.parser@, os, arch),
                ));
                assert(over == true || over == false);
            },
            _ => {},
        }
    }
}

/// The binary is downloaded from where the first file of the release with its name
/// is.
pub proof fn law_download_address(release: JsonView, name: Seq<char>, repo: Seq<char>)
    ensures
        match download_address(release, name, repo) {
            Ok(url) => exists|i: int| #[trigger] is_first_asset(release, name, i) && as_text(
                field((field(release, "assets"@)->0)->List_0[i], "browser_download_url"@),
            ) == Some(url),
            Err(_) => forall|i: int| #[trigger]
                is_first_asset(release, name, i) ==> as_text(
                    field((field(release, "assets"@)->0)->List_0[i], "browser_download_url"@),
                ) is None,
        },
{
    match field(release, "assets"@) {
        Some(JsonView::List(assets)) => {
            lemma_named_asset(assets, name);
            match named_asset(assets, name) {
                Some(asset) => {
                    let at = choose|at: int|
                        0 <= at < assets.len() && assets[at] == asset && as_text(
                            field(#[trigger] assets[at], "name"@),
                        ) == Some(name) && forall|k: int|
                            0 <= k < at ==> as_text(field(#[trigger] assets[k], "name"@)) != Some(
                                name,
                            );
                    assert(is_first_asset(release, name, at));
                    assert forall|i: int| #[trigger] is_first_asset(release, name, i) implies i
                        == at by {
                        if i < at {
                            assert(as_text(field(assets[i], "name"@)) != Some(name));
                        }
                        if at < i {
                            assert(as_text(field(assets[at], "name"@)) != Some(name));
                        }
                    }
                },
                None => {},
            }
        },
        _ => {},
    }
}

/// Whether the file of a release at a position is the first with a name.
pub open spec fn is_first_asset(release: JsonView, name: Seq<char>, at: int) -> bool {
    &&& field(release, "assets"@) is Some
    &&& field(release, "assets"@)->0 is List
    &&& ({
        let assets = (field(release, "assets"@)->0)->List_0;
        &&& 0 <= at < assets.len()
        &&& as_text(field(assets[at], "name"@)) == Some(name)
        &&& forall|k: int|
            0 <= k < at ==> as_text(field(#[trigger] assets[k], "name"@)) != Some(name)
    })
}

/// The first file with a name.
proof fn lemma_named_asset(assets: Seq<JsonView>, name: Seq<char>)
    ensures
        match named_asset(assets, name) {
            Some(asset) => exists|at: int|
                0 <= at < assets.len() && assets[at] == asset && as_text(
                    field(#[trigger] assets[at], "name"@),
                ) == Some(name) && forall|k: int|
                    0 <= k < at ==> as_text(field(#[trigger] assets[k], "name"@)) != Some(name),
            None => forall|k: int|
                0 <= k < assets.len() ==> as_text(field(#[trigger] assets[k], "name"@)) != Some(
                    name,
                ),
        },
    decreases assets.len(),
{
    if assets.len() > 0 && as_text(field(assets[0], "name"@)) != Some(name) {
        let rest = assets.drop_first();
        lemma_named_asset(rest, name);
        match named_asset(rest, name) {
            Some(asset) => {
                let at = choose|at: int|
                    0 <= at < rest.len() && rest[at] == asset && as_text(
                        field(#[trigger] rest[at], "name"@),
                    ) == Some(name) && forall|k: int|
                        0 <= k < at ==> as_text(field(#[trigger] rest[k], "name"@)) != Some(name);
                assert(assets[at + 1] == rest[at]);
                assert forall|k: int| 0 <= k < at + 1 implies as_text(
                    field(#[trigger] assets[k], "name"@),
                ) != Some(name) by {
                    if k > 0 {
                        assert(assets[k] == rest[k - 1]);
                    }
                }
            },
            None => {
                assert forall|k: int| 0 <= k < assets.len() implies as_text(
                    field(#[trigger] assets[k], "name"@),
                ) != Some(name) by {
                    if k > 0 {
                        assert(assets[k] == rest[k - 1]);
                    }
                }
            },
        }
    } else if assets.len() > 0 {
        assert(as_text(field(assets[0], "name"@)) == Some(name));
    }
}

// ---------------------------------------------------------------------------
// Languages that are loaded
// ---------------------------------------------------------------------------

/// Whether a language claims an extension, whatever the case of its letters.
pub open spec fn claims(language: LoadedView, extension: Seq<char>) -> bool {
    exists|i: int|
        0 <= i < language.extensions.len() && lowercase(#[trigger] language.extensions[i])
            == lowercase(extension)
}

/// The language of a file is the last loaded one that claims its extension; a file
/// without an extension has none.
pub proof fn law_language_of_file(languages: Seq<LoadedView>, path: Seq<char>)
    ensures
        match file_language(languages, path) {
            Some(language) => path_extension(path) is Some && exists|k: int|
                0 <= k < languages.len() && #[trigger] languages[k] == language && claims(
                    language,
                    path_extension(path)->0,
                ) && forall|m: int|
                    k < m < languages.len() ==> !claims(
                        #[trigger] languages[m],
                        path_extension(path)->0,
                    ),
            None => path_extension(path) is None || forall|k: int|
                0 <= k < languages.len() ==> !claims(
                    #[trigger] languages[k],
                    path_extension(path)->0,
                ),
        },
{
    match path_extension(path) {
        Some(extension) => {
            lemma_owner(languages, extension);
        },
        None => {},
    }
}

/// The last language that claims an extension.
proof fn lemma_owner(languages: Seq<LoadedView>, extension: Seq<char>)
    ensures
        match extension_owner(languages, lowercase(extension)) {
            Some(language) => exists|k: int|
                0 <= k < languages.len() && #[trigger] languages[k] == language && claims(
                    language,
                    extension,
                ) && forall|m: int|
                    k < m < languages.len() ==> !claims(#[trigger] languages[m], extension),
            None => forall|k: int|
                0 <= k < languages.len() ==> !claims(#[trigger] languages[k], extension),
        },
    decreases languages.len(),
{
    if languages.len() > 0 {
        let last = languages.last();
        assert(lists_lowercase(last.extensions, lowercase(extension)) == claims(last, extension));
        let before = languages.drop_last();
        assert(languages[languages.len() - 1] == last);
        if !claims(last, extension) {
            lemma_owner(before, extension);
            match extension_owner(before, lowercase(extension)) {
                Some(language) => {
                    let k = choose|k: int|
                        0 <= k < before.len() && #[trigger] before[k] == language && claims(
                            language,
                            extension,
                        ) && forall|m: int|
                            k < m < before.len() ==> !claims(#[trigger] before[m], extension);
                    assert(languages[k] == before[k]);
                    assert forall|m: int| k < m < languages.len() implies !claims(
                        #[trigger] languages[m],
                        extension,
                    ) by {
                        if m < before.len() {
                            assert(before[m] == languages[m]);
                        }
                    }
                },
                None => {
                    assert forall|m: int| 0 <= m < languages.len() implies !claims(
                        #[trigger] languages[m],
                        extension,
                    ) by {
                        if m < before.len() {
                            assert(before[m] == languages[m]);
                        }
                    }
                },
            }
        }
    }
}

/// The language with a name is the first loaded one that has it, whatever the case
/// of its letters.
pub proof fn law_language_of_name(languages: Seq<LoadedView>, name: Seq<char>)
    ensures
        match named_language(languages, name) {
            Some(language) => exists|k: int|
                0 <= k < languages.len() && #[trigger] languages[k] == language && same_name(
                    language.name,
                    name,
                ) && forall|m: int|
                    0 <= m < k ==> !same_name((#[trigger] languages[m]).name, name),
            None => forall|k: int|
                0 <= k < languages.len() ==> !same_name((#[trigger] languages[k]).name, name),
        },
    decreases languages.len(),
{
    if languages.len() > 0 {
        law_same_name(languages[0].name, name);
        let rest = languages.drop_first();
        if !same_name(languages[0].name, name) {
            law_language_of_name(rest, name);
            match named_language(rest, name) {
                Some(language) => {
                    let k = choose|k: int|
                        0 <= k < rest.len() && #[trigger] rest[k] == language && same_name(
                            language.name,
                            name,
                        ) && forall|m: int|
                            0 <= m < k ==> !same_name((#[trigger] rest[m]).name, name);
                    assert(languages[k + 1] == rest[k]);
                    assert forall|m: int| 0 <= m < k + 1 implies !same_name(
                        (#[trigger] languages[m]).name,
                        name,
                    ) by {
                        if m > 0 {
                            assert(languages[m] == rest[m - 1]);
                        }
                    }
                },
                None => {
                    assert forall|m: int| 0 <= m < languages.len() implies !same_name(
                        (#[trigger] languages[m]).name,
                        name,
                    ) by {
                        if m > 0 {
                            assert(languages[m] == rest[m - 1]);
                        }
                    }
                },
            }
        }
    }
}

/// The function by which a binary gives its grammar is named after the language,
/// with an underscore for each hyphen.
pub proof fn law_grammar_symbol(name: Seq<char>)
    ensures
        grammar_symbol(name).len() == 12 + name.len(),
        grammar_symbol(name).take(12) == "tree_sitter_"@,
        forall|i: int|
            0 <= i < name.len() ==> #[trigger] grammar_symbol(name)[12 + i] == if name[i] == '-' {
                '_'
            } else {
                name[i]
            },
{
    reveal_strlit("tree_sitter_");
    lemma_hyphens(name);
    let out = replaced(name, "-"@, "_"@);
    assert(grammar_symbol(name).take(12) =~= "tree_sitter_"@);
    assert forall|i: int| 0 <= i < name.len() implies #[trigger] grammar_symbol(name)[12 + i]
        == out[i] by {}
}

/// Each hyphen is replaced, and nothing else.
proof fn lemma_hyphens(name: Seq<char>)
    ensures
        replaced(name, "-"@, "_"@).len() == name.len(),
        forall|i: int|
            0 <= i < name.len() ==> #[trigger] replaced(name, "-"@, "_"@)[i] == if name[i] == '-' {
                '_'
            } else {
                name[i]
            },
    decreases name.len(),
{
    reveal_strlit("-");
    reveal_strlit("_");
    let out = replaced(name, "-"@, "_"@);
    if name.len() > 0 {
        let rest = name.drop_first();
        lemma_hyphens(rest);
        let more = replaced(rest, "-"@, "_"@);
        assert(name.skip(1) =~= rest);
        if name[0] == '-' {
            assert(name.take(1) =~= "-"@);
            assert(out =~= "_"@ + more);
        } else {
            assert(name.take(1)[0] == name[0]);
            assert(out =~= seq![name[0]] + more);
        }
        assert forall|i: int| 0 <= i < name.len() implies #[trigger] out[i] == if name[i] == '-' {
            '_'
        } else {
            name[i]
        } by {
            if i > 0 {
                assert(out[i] == more[i - 1]);
                assert(rest[i - 1] == name[i]);
            }
        }
    }
}

/// A pack is loaded where it is named, whatever the case of the letters, and each is
/// where nothing is said.
pub proof fn law_wanted_pack(name: Seq<char>, names: Option<Seq<Seq<char>>>)
    ensures
        wanted_pack(name, names) <==> names is None || exists|i: int|
            0 <= i < (names->0).len() && lowercase(#[trigger] (names->0)[i]) == lowercase(name),
{
}

/// A new pack names its language and lists the extensions of the language in their
/// order, each between quotation marks.
pub proof fn law_pack_text(language: KnownView)
    ensures
        exists|list: Seq<Seq<char>>, rest: Seq<char>|
            #![trigger joined(list, ", "@), pack_ends(rest)]
            list.len() == language.extensions.len() && (forall|i: int|
                0 <= i < list.len() ==> #[trigger] list[i] == "\""@ + language.extensions[i] + "\""@)
                && pack_ends(rest) && pack_text(language) == "name = \""@ + language.name
                + "\"\nextensions = ["@ + joined(list, ", "@) + rest,
{
    let list = quoted_all(language.extensions);
    let rest = "]\nparser = \"tree-sitter-"@ + language.name
        + "-{os}-{arch}{ext}\"\ncustom = false\n\n[queries]\nstructural = \"queries.scm\"\n"@;
    reveal_strlit("]\nparser = \"tree-sitter-");
    assert(rest[0] == ']');
    assert(pack_ends(rest));
    let front = "name = \""@ + language.name + "\"\nextensions = ["@ + joined(list, ", "@);
    assert(pack_text(language) =~= front + rest);
}

/// Whether a text closes a list.
pub open spec fn pack_ends(rest: Seq<char>) -> bool {
    rest.len() > 0 && rest[0] == ']'
}

/// A language is loaded under its name and with its extensions, exactly where its
/// query can be read.
pub proof fn law_language_is_loaded(
    name: Seq<char>,
    extensions: Seq<Seq<char>>,
    language: tree_sitter::Language,
    query: Seq<char>,
)
    ensures
        loaded(name, extensions, language, query) is Ok <==> query_fault(language, query) is None,
        match loaded(name, extensions, language, query) {
            Ok(own) => {
                &&& own.name == name
                &&& own.extensions == extensions
                &&& own.language == language
                &&& own.query == query_of(language, query)
            },
            Err(_) => true,
        },
{
}

/// Whether an event answers a step.
pub open spec fn answers(state: SyncStateView, event: SyncEvent) -> bool {
    match state {
        SyncStateView::MakeDirectory => event is Finished,
        SyncStateView::CheckConfig => event is Found,
        SyncStateView::WriteConfig => event is Finished,
        SyncStateView::ReadConfig => event is Config,
        SyncStateView::CheckQuery(_) => event is Found,
        SyncStateView::WriteQuery(_, _) => event is Finished,
        SyncStateView::CheckParser(_) => event is Found,
        SyncStateView::Download(_) => event is Finished,
        SyncStateView::Done(_) => false,
    }
}

/// What answers a step leads on, and nothing else does. A pack without a description
/// gets one, and its binary is downloaded where it is missing and that is allowed.
pub proof fn law_sync_goes_on(
    plan: SyncView,
    state: SyncStateView,
    event: SyncEvent,
    os: Seq<char>,
    arch: Seq<char>,
)
    ensures
        ({
            let next = next_sync(plan, state, event, os, arch);
            &&& next != state <==> answers(state, event)
            &&& answers(state, event) && !fails(event) ==> match state {
                SyncStateView::MakeDirectory => next is CheckConfig,
                SyncStateView::CheckConfig => next is WriteConfig || next is ReadConfig,
                SyncStateView::WriteConfig => next is ReadConfig,
                SyncStateView::ReadConfig => next is CheckQuery && event == SyncEvent::Config(
                    Ok(next->CheckQuery_0),
                ),
                SyncStateView::CheckQuery(config) => next is WriteQuery || (next is CheckParser
                    && config.custom == Some(true) && event == SyncEvent::Found(true)),
                SyncStateView::WriteQuery(_, _) => next is CheckParser,
                SyncStateView::CheckParser(_) => if event == SyncEvent::Found(true) {
                    next == SyncStateView::Done(Ok(()))
                } else if plan.allow_download {
                    next is Download
                } else {
                    next is Done && next->Done_0 is Err
                },
                SyncStateView::Download(_) => next == SyncStateView::Done(Ok(())),
                SyncStateView::Done(_) => false,
            }
        }),
{
}

} // verus!
