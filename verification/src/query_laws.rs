//! What holds of all that is asked of the store and read from it.
use crate::globs::{glob_fault, glob_set, globs_fault, set_fault};
use crate::store::{
    batch_fault, chunk_table, columns_fault, escaped, file_condition, filter_fault, kept_all,
    lists_fault, roots_fault, search_results, source_condition, stored_hash, stored_ids,
    tells_missing, type_condition, Column, ColumnKind, FilterView, FoundColumns, RootFilterView,
};
use crate::text::{holds_part, stands_at, texts};
use crate::types::EmbeddedChunk;
use vstd::prelude::*;

verus! {

// ---------------------------------------------------------------------------
// Conditions
// ---------------------------------------------------------------------------

/// What stands between the apostrophes of a text in a condition, as it is read: two
/// apostrophes stand for one, and a single one cannot stand there.
pub open spec fn read_literal(body: Seq<char>) -> Option<Seq<char>>
    decreases body.len(),
{
    if body.len() == 0 {
        Some(Seq::empty())
    } else if body[0] != '\'' {
        match read_literal(body.drop_first()) {
            Some(rest) => Some(seq![body[0]] + rest),
            None => None,
        }
    } else if body.len() > 1 && body[1] == '\'' {
        match read_literal(body.skip(2)) {
            Some(rest) => Some(seq!['\''] + rest),
            None => None,
        }
    } else {
        None
    }
}

/// A text is read back from a condition as it was, whatever apostrophes it holds.
pub proof fn law_text_is_read_back(value: Seq<char>)
    ensures
        read_literal(escaped(value)) == Some(value),
    decreases value.len(),
{
    reveal_strlit("'");
    reveal_strlit("''");
    let out = escaped(value);
    if value.len() == 0 {
        assert(out =~= Seq::<char>::empty());
        assert(value =~= Seq::<char>::empty());
    } else if value[0] == '\'' {
        assert(value.take(1) =~= "'"@);
        let rest = value.skip(1);
        law_text_is_read_back(rest);
        assert(out =~= "''"@ + escaped(rest));
        assert(out.skip(2) =~= escaped(rest));
        assert(seq!['\''] + rest =~= value);
    } else {
        assert(value.take(1)[0] == value[0]);
        assert(value.take(1) != "'"@);
        let rest = value.drop_first();
        law_text_is_read_back(rest);
        assert(out =~= seq![value[0]] + escaped(rest));
        assert(out.drop_first() =~= escaped(rest));
        assert(seq![value[0]] + rest =~= value);
    }
}

/// Different texts stand in conditions in different ways.
proof fn lemma_escaped_apart(a: Seq<char>, b: Seq<char>)
    ensures
        escaped(a) == escaped(b) ==> a == b,
{
    law_text_is_read_back(a);
    law_text_is_read_back(b);
}

/// The condition for the chunks of a file holds of no other file.
pub proof fn law_file_condition_tells_apart(a: Seq<char>, b: Seq<char>)
    ensures
        file_condition(a) == file_condition(b) ==> a == b,
{
    reveal_strlit("file_path = '");
    reveal_strlit("'");
    if file_condition(a) == file_condition(b) {
        let front = "file_path = '"@;
        assert(file_condition(a).len() == front.len() + escaped(a).len() + 1);
        assert(file_condition(b).len() == front.len() + escaped(b).len() + 1);
        assert(file_condition(a).subrange(front.len() as int, (front.len() + escaped(a).len()) as int)
            =~= escaped(a));
        assert(file_condition(b).subrange(front.len() as int, (front.len() + escaped(b).len()) as int)
            =~= escaped(b));
        lemma_escaped_apart(a, b);
    }
}

/// The condition for one source names its type and its id, each as it is read back.
pub proof fn law_source_condition(source_type: Seq<char>, source_id: Seq<char>)
    ensures
        exists|kind: Seq<char>, id: Seq<char>|
            #![trigger read_literal(kind), read_literal(id)]
            read_literal(kind) == Some(source_type) && read_literal(id) == Some(source_id)
                && source_condition(source_type, source_id) == "source_type = '"@ + kind + "'"@
                + " AND source_id = '"@ + id + "'"@ && type_condition(source_type)
                == "source_type = '"@ + kind + "'"@,
{
    law_text_is_read_back(source_type);
    law_text_is_read_back(source_id);
    let kind = escaped(source_type);
    let id = escaped(source_id);
    assert(read_literal(kind) == Some(source_type) && read_literal(id) == Some(source_id));
}

// ---------------------------------------------------------------------------
// Columns
// ---------------------------------------------------------------------------

/// The ids of more batches are those of the first and then those of the others.
pub proof fn law_ids_of_batches(front: Seq<Column<String>>, behind: Seq<Column<String>>)
    requires
        stored_ids(front) is Ok,
        stored_ids(behind) is Ok,
    ensures
        stored_ids(front + behind) is Ok,
        stored_ids(front + behind)->Ok_0 == stored_ids(front)->Ok_0 + stored_ids(behind)->Ok_0,
    decreases behind.len(),
{
    if behind.len() == 0 {
        assert(front + behind =~= front);
        assert(stored_ids(front)->Ok_0 + stored_ids(behind)->Ok_0 =~= stored_ids(front)->Ok_0);
    } else {
        assert((front + behind).drop_last() =~= front + behind.drop_last());
        assert((front + behind).last() == behind.last());
        law_ids_of_batches(front, behind.drop_last());
        let own = texts(behind.last()->Values_0@);
        assert(stored_ids(front)->Ok_0 + (stored_ids(behind.drop_last())->Ok_0 + own) =~= (
        stored_ids(front)->Ok_0 + stored_ids(behind.drop_last())->Ok_0) + own);
    }
}

/// The ids of one batch are its values, row by row; a batch without the column is
/// refused.
pub proof fn law_ids_of_batch(batch: Column<String>)
    ensures
        stored_ids(seq![batch]) is Ok <==> batch is Values,
        batch is Values ==> {
            let ids = stored_ids(seq![batch])->Ok_0;
            &&& ids.len() == batch->Values_0@.len()
            &&& forall|i: int| 0 <= i < ids.len() ==> #[trigger] ids[i] == batch->Values_0@[i]@
        },
{
    assert(seq![batch].drop_last() =~= Seq::<Column<String>>::empty());
    assert(stored_ids(Seq::<Column<String>>::empty()) == Ok::<Seq<Seq<char>>, Seq<char>>(
        Seq::empty(),
    ));
}

/// The hash that is stored is in the first row of the first batch with rows; there
/// is none where no batch has any.
pub proof fn law_first_hash_counts(batches: Seq<Column<String>>)
    requires
        forall|i: int| 0 <= i < batches.len() ==> (#[trigger] batches[i]) is Values,
    ensures
        match stored_hash(batches) {
            Ok(Some(hash)) => exists|k: int|
                0 <= k < batches.len() && (#[trigger] batches[k])->Values_0@.len() > 0
                    && batches[k]->Values_0@[0]@ == hash && forall|i: int|
                    0 <= i < k ==> (#[trigger] batches[i])->Values_0@.len() == 0,
            Ok(None) => forall|i: int|
                0 <= i < batches.len() ==> (#[trigger] batches[i])->Values_0@.len() == 0,
            Err(_) => false,
        },
    decreases batches.len(),
{
    if batches.len() > 0 && batches[0]->Values_0@.len() == 0 {
        let rest = batches.drop_first();
        assert(batches[0] is Values);
        assert forall|i: int| 0 <= i < rest.len() implies (#[trigger] rest[i]) is Values by {
            assert(rest[i] == batches[i + 1]);
        }
        law_first_hash_counts(rest);
        match stored_hash(rest) {
            Ok(Some(hash)) => {
                let k = choose|k: int|
                    0 <= k < rest.len() && (#[trigger] rest[k])->Values_0@.len() > 0
                        && rest[k]->Values_0@[0]@ == hash && forall|i: int|
                        0 <= i < k ==> (#[trigger] rest[i])->Values_0@.len() == 0;
                assert(batches[k + 1] == rest[k]);
                assert forall|i: int| 0 <= i < k + 1 implies (
                #[trigger] batches[i])->Values_0@.len() == 0 by {
                    if i > 0 {
                        assert(batches[i] == rest[i - 1]);
                    }
                }
            },
            _ => {
                assert forall|i: int| 0 <= i < batches.len() implies (
                #[trigger] batches[i])->Values_0@.len() == 0 by {
                    if i > 0 {
                        assert(batches[i] == rest[i - 1]);
                    }
                }
            },
        }
    } else if batches.len() > 0 {
        assert(batches[0] is Values);
    }
}

/// A batch of rows can be read exactly where all its columns are there.
pub proof fn law_columns_needed(columns: FoundColumns)
    ensures
        columns_fault(columns) is None <==> {
            &&& columns.chunk_id is Values
            &&& columns.file_path is Values
            &&& columns.language is Values
            &&& columns.node_kind is Values
            &&& columns.start_line is Values
            &&& columns.end_line is Values
            &&& columns.parent_context is Values
            &&& columns.text is Values
        },
{
}

/// Chunks can be written exactly where there are some and all their embeddings have
/// one length, which is not zero.
pub proof fn law_chunks_to_write<E>(chunks: Seq<EmbeddedChunk<E>>)
    ensures
        batch_fault(chunks) is None <==> chunks.len() > 0 && forall|i: int, j: int|
            0 <= i < chunks.len() && 0 <= j < chunks.len() ==> (
            #[trigger] chunks[i]).embedding@.len() == (#[trigger] chunks[j]).embedding@.len()
                && chunks[i].embedding@.len() > 0,
{
    if chunks.len() > 0 && batch_fault(chunks) is None {
        assert forall|i: int, j: int| 0 <= i < chunks.len() && 0 <= j < chunks.len() implies (
        #[trigger] chunks[i]).embedding@.len() == (#[trigger] chunks[j]).embedding@.len()
            && chunks[i].embedding@.len() > 0 by {
            assert(chunks[i].embedding@.len() == chunks[0].embedding@.len());
            assert(chunks[j].embedding@.len() == chunks[0].embedding@.len());
        }
    }
    if chunks.len() > 0 && forall|i: int, j: int|
        0 <= i < chunks.len() && 0 <= j < chunks.len() ==> (#[trigger] chunks[i]).embedding@.len()
            == (#[trigger] chunks[j]).embedding@.len() && chunks[i].embedding@.len() > 0 {
        assert(chunks[0].embedding@.len() == chunks[0].embedding@.len());
        assert forall|i: int| 0 <= i < chunks.len() implies (#[trigger] chunks[i]).embedding@.len()
            == chunks[0].embedding@.len() by {}
    }
}

/// A filter can be used exactly where all its patterns and those of its roots can
/// be read.
pub proof fn law_filter_needs_patterns(filter: FilterView)
    ensures
        filter_fault(filter) is None <==> {
            &&& glob_set(filter.allow_globs) is Ok
            &&& glob_set(filter.deny_globs) is Ok
            &&& forall|i: int|
                0 <= i < filter.allowed_roots.len() ==> readable(#[trigger] filter.allowed_roots[i])
        },
{
    lemma_roots_readable(filter.allowed_roots);
}

/// Whether all patterns of a root can be read.
pub open spec fn readable(root: RootFilterView) -> bool {
    &&& glob_set(root.deny) is Ok
    &&& forall|i: int| 0 <= i < root.allow.len() ==> glob_set(#[trigger] root.allow[i]) is Ok
}

/// Roots whose patterns can be read.
proof fn lemma_roots_readable(roots: Seq<RootFilterView>)
    ensures
        roots_fault(roots) is None <==> forall|i: int|
            0 <= i < roots.len() ==> readable(#[trigger] roots[i]),
    decreases roots.len(),
{
    if roots.len() > 0 {
        let rest = roots.drop_first();
        lemma_roots_readable(rest);
        lemma_lists_readable(roots[0].allow);
        if roots_fault(roots) is None {
            assert forall|i: int| 0 <= i < roots.len() implies readable(#[trigger] roots[i]) by {
                if i > 0 {
                    assert(roots[i] == rest[i - 1]);
                }
            }
        }
        if forall|i: int| 0 <= i < roots.len() ==> readable(#[trigger] roots[i]) {
            assert(readable(roots[0]));
            assert forall|i: int| 0 <= i < rest.len() implies readable(#[trigger] rest[i]) by {
                assert(rest[i] == roots[i + 1]);
            }
        }
    }
}

/// Lists of patterns that can be read.
proof fn lemma_lists_readable(lists: Seq<Seq<Seq<char>>>)
    ensures
        lists_fault(lists) is None <==> forall|i: int|
            0 <= i < lists.len() ==> glob_set(#[trigger] lists[i]) is Ok,
    decreases lists.len(),
{
    if lists.len() > 0 {
        let rest = lists.drop_first();
        lemma_lists_readable(rest);
        if lists_fault(lists) is None {
            assert forall|i: int| 0 <= i < lists.len() implies glob_set(#[trigger] lists[i]) is Ok by {
                if i > 0 {
                    assert(lists[i] == rest[i - 1]);
                }
            }
        }
        if forall|i: int| 0 <= i < lists.len() ==> glob_set(#[trigger] lists[i]) is Ok {
            assert(glob_set(lists[0]) is Ok);
            assert forall|i: int| 0 <= i < rest.len() implies glob_set(#[trigger] rest[i]) is Ok by {
                assert(rest[i] == lists[i + 1]);
            }
        }
    }
}

// ---------------------------------------------------------------------------
// Messages and patterns
// ---------------------------------------------------------------------------

/// A message that says that a table was not found says so wherever it does.
pub proof fn law_missing_table_is_told(front: Seq<char>, behind: Seq<char>)
    ensures
        tells_missing(front + "Table 'chunks' was not found"@ + behind),
        tells_missing(front + "Table 'sources' was not found"@ + behind),
        tells_missing(front + "table was not found"@ + behind),
        tells_missing(front + "table not found"@ + behind),
{
    lemma_holds_part(front, "Table 'chunks' was not found"@, behind);
    lemma_holds_part(front, "Table 'sources' was not found"@, behind);
    lemma_holds_part(front, "table was not found"@, behind);
    lemma_holds_part(front, "table not found"@, behind);
}

/// A text holds what stands in it.
proof fn lemma_holds_part(front: Seq<char>, part: Seq<char>, behind: Seq<char>)
    ensures
        holds_part(front + part + behind, part),
{
    let text = front + part + behind;
    let at = front.len() as int;
    assert(text.subrange(at, at + part.len()) =~= part);
    assert(stands_at(text, part, at));
}

/// Patterns make a set exactly where each can be read and all of them together can;
/// the set holds them as they are, and there is none without patterns.
pub proof fn law_pattern_set(patterns: Seq<Seq<char>>)
    ensures
        glob_set(patterns) is Ok <==> patterns.len() == 0 || (set_fault(patterns) is None
            && forall|i: int|
            0 <= i < patterns.len() ==> glob_fault(#[trigger] patterns[i]) is None),
        match glob_set(patterns) {
            Ok(None) => patterns.len() == 0,
            Ok(Some(set)) => set == patterns && patterns.len() > 0,
            Err(_) => true,
        },
{
    lemma_patterns_read(patterns);
}

/// Patterns that can be read.
proof fn lemma_patterns_read(patterns: Seq<Seq<char>>)
    ensures
        globs_fault(patterns) is None <==> forall|i: int|
            0 <= i < patterns.len() ==> glob_fault(#[trigger] patterns[i]) is None,
    decreases patterns.len(),
{
    if patterns.len() > 0 {
        let rest = patterns.drop_first();
        lemma_patterns_read(rest);
        if globs_fault(patterns) is None {
            assert forall|i: int| 0 <= i < patterns.len() implies glob_fault(
                #[trigger] patterns[i],
            ) is None by {
                if i > 0 {
                    assert(patterns[i] == rest[i - 1]);
                }
            }
        }
        if forall|i: int| 0 <= i < patterns.len() ==> glob_fault(#[trigger] patterns[i]) is None {
            assert(glob_fault(patterns[0]) is None);
            assert forall|i: int| 0 <= i < rest.len() implies glob_fault(#[trigger] rest[i]) is None by {
                assert(rest[i] == patterns[i + 1]);
            }
        }
    }
}

// ---------------------------------------------------------------------------
// Tables
// ---------------------------------------------------------------------------

/// Whether a table has a column of a kind.
pub open spec fn has_column(
    table: Seq<(Seq<char>, ColumnKind, bool)>,
    name: Seq<char>,
    kind: ColumnKind,
    nullable: bool,
) -> bool {
    table.contains((name, kind, nullable))
}

/// The table of chunks has a column for each part of a chunk and for its embedding,
/// and no other. Only the context may be missing.
pub proof fn law_chunk_table(dimension: usize)
    ensures
        ({
            let table = chunk_table(dimension);
            &&& table.len() == 9
            &&& has_column(table, "chunk_id"@, ColumnKind::Text, false)
            &&& has_column(table, "file_path"@, ColumnKind::Text, false)
            &&& has_column(table, "language"@, ColumnKind::Text, false)
            &&& has_column(table, "node_kind"@, ColumnKind::Text, false)
            &&& has_column(table, "start_line"@, ColumnKind::Number, false)
            &&& has_column(table, "end_line"@, ColumnKind::Number, false)
            &&& has_column(table, "parent_context"@, ColumnKind::Text, true)
            &&& has_column(table, "text"@, ColumnKind::Text, false)
            &&& has_column(table, "embedding"@, ColumnKind::Vector(dimension), false)
        }),
{
    let table = chunk_table(dimension);
    assert(table[0] == ("chunk_id"@, ColumnKind::Text, false));
    assert(table[1] == ("file_path"@, ColumnKind::Text, false));
    assert(table[2] == ("language"@, ColumnKind::Text, false));
    assert(table[3] == ("node_kind"@, ColumnKind::Text, false));
    assert(table[4] == ("start_line"@, ColumnKind::Number, false));
    assert(table[5] == ("end_line"@, ColumnKind::Number, false));
    assert(table[6] == ("parent_context"@, ColumnKind::Text, true));
    assert(table[7] == ("text"@, ColumnKind::Text, false));
    assert(table[8] == ("embedding"@, ColumnKind::Vector(dimension), false));
}

// ---------------------------------------------------------------------------
// When something is read
// ---------------------------------------------------------------------------

/// The ids are read exactly where each batch has the column.
pub proof fn law_ids_are_read(batches: Seq<Column<String>>)
    ensures
        stored_ids(batches) is Ok <==> forall|i: int|
            0 <= i < batches.len() ==> (#[trigger] batches[i]) is Values,
    decreases batches.len(),
{
    if batches.len() > 0 {
        let before = batches.drop_last();
        law_ids_are_read(before);
        assert(batches[batches.len() - 1] == batches.last());
        if forall|i: int| 0 <= i < before.len() ==> (#[trigger] before[i]) is Values {
            assert forall|i: int| 0 <= i < batches.len() - 1 implies (#[trigger] batches[i]) is Values by {
                assert(before[i] == batches[i]);
            }
        } else {
            let i = choose|i: int| 0 <= i < before.len() && !((#[trigger] before[i]) is Values);
            assert(batches[i] == before[i]);
        }
    }
}

/// A search succeeds exactly where the patterns of its filter can be read and each
/// batch has all its columns.
pub proof fn law_search_succeeds(batches: Seq<FoundColumns>, filter: FilterView)
    ensures
        search_results(batches, filter) is Ok <==> filter_fault(filter) is None && forall|i: int|
            0 <= i < batches.len() ==> columns_fault(#[trigger] batches[i]) is None,
{
    lemma_batches_read(batches, filter);
}

/// Batches that can be read.
proof fn lemma_batches_read(batches: Seq<FoundColumns>, filter: FilterView)
    ensures
        kept_all(batches, filter) is Ok <==> forall|i: int|
            0 <= i < batches.len() ==> columns_fault(#[trigger] batches[i]) is None,
    decreases batches.len(),
{
    if batches.len() > 0 {
        let before = batches.drop_last();
        lemma_batches_read(before, filter);
        assert(batches[batches.len() - 1] == batches.last());
        if forall|i: int| 0 <= i < before.len() ==> columns_fault(#[trigger] before[i]) is None {
            assert forall|i: int| 0 <= i < batches.len() - 1 implies columns_fault(
                #[trigger] batches[i],
            ) is None by {
                assert(before[i] == batches[i]);
            }
        } else {
            let i = choose|i: int|
                0 <= i < before.len() && columns_fault(#[trigger] before[i]) is Some;
            assert(batches[i] == before[i]);
        }
    }
}

} // verus!
