//! External contents: what is added to their chunks.
use crate::json_text::{json_compact, json_quoted, quote_json, read_json, write_value};
use crate::text::{concat, first_from, split_once};
use crate::types::text_view;
use vstd::prelude::*;

verus! {

/// The metadata of a content as a JSON text: as it is where it is one, else as a
/// string.
pub open spec fn metadata_json(metadata: Seq<char>) -> Seq<char> {
    match json_compact(metadata) {
        Some(compact) => compact,
        None => json_quoted(metadata),
    }
}

/// An object of the metadata of a content and, where there is one, the context
/// path of a chunk.
pub open spec fn context_object(path: Option<Seq<char>>, metadata: Seq<char>) -> Seq<char> {
    "{\"external\":"@ + metadata + match path {
        Some(path) => ",\"path\":"@ + path,
        None => Seq::empty(),
    } + "}"@
}

/// The context of a chunk of an external content: its metadata and its context
/// path, as a JSON text.
pub open spec fn external_context(path: Option<Seq<char>>, metadata: Seq<char>) -> Seq<char> {
    context_object(
        match path {
            Some(path) => Some(json_quoted(path)),
            None => None,
        },
        metadata_json(metadata),
    )
}

/// Writes an object of metadata and a context path that are JSON texts.
pub fn write_context(path: &Option<String>, metadata: &str) -> (out: String)
    ensures
        out@ == context_object(text_view(*path), metadata@),
{
    let mut out = concat("{\"external\":", metadata);
    let ghost front = out@;
    match path {
        Some(path) => {
            out.push_str(",\"path\":");
            out.push_str(path.as_str());
            assert(out@ =~= front + (",\"path\":"@ + path@));
        },
        None => {
            assert(out@ =~= front + Seq::<char>::empty());
        },
    }
    out.push_str("}");
    out
}

/// The context of a chunk of an external content.
pub fn encode_external_metadata(parent_context: &Option<String>, metadata: &str) -> (out: String)
    ensures
        out@ == external_context(text_view(*parent_context), metadata@),
{
    let written: String = match read_json(metadata) {
        Ok(value) => write_value(&value),
        Err(_) => quote_json(metadata),
    };
    let path: Option<String> = match parent_context {
        Some(path) => Some(quote_json(path.as_str())),
        None => None,
    };
    write_context(&path, written.as_str())
}

/// A chunk with its metadata as the last line of its header.
pub open spec fn with_metadata(text: Seq<char>, metadata: Seq<char>) -> Seq<char> {
    match first_from(text, "\n\n"@, 0) {
        Some(at) => text.take(at) + "\n"@ + "META: "@ + metadata + "\n\n"@ + text.skip(
            at + "\n\n"@.len(),
        ),
        None => "META: "@ + metadata + "\n\n"@ + text,
    }
}

/// Adds the metadata to the header of a chunk.
pub fn inject_metadata_header(text: &str, metadata: &str) -> (out: String)
    ensures
        out@ == with_metadata(text@, metadata@),
{
    match split_once(text, "\n\n") {
        Some(parts) => {
            let mut out = parts.0;
            out.push_str("\n");
            out.push_str("META: ");
            out.push_str(metadata);
            out.push_str("\n\n");
            out.push_str(parts.1.as_str());
            out
        },
        None => {
            let mut out = concat("META: ", metadata);
            out.push_str("\n\n");
            out.push_str(text);
            out
        },
    }
}

/// The path under which the chunks of a content are stored.
pub open spec fn content_path(id: Seq<char>) -> Seq<char> {
    "content://"@ + id
}

/// The path under which the chunks of a content are stored.
pub fn path_of_content(id: &str) -> (path: String)
    ensures
        path@ == content_path(id@),
{
    concat("content://", id)
}

} // verus!
