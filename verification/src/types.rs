//! What a source text is cut into.
use vstd::prelude::*;

verus! {

/// A piece of a file that is embedded and stored as one.
#[derive(Clone, Debug)]
pub struct Chunk {
    pub id: String,
    pub text: String,
    pub metadata: ChunkMetadata,
}

/// A chunk with its embedding. `E` is the type of the numbers in it.
#[derive(Clone, Debug)]
pub struct EmbeddedChunk<E> {
    pub chunk: Chunk,
    pub embedding: Vec<E>,
}

/// Where a chunk comes from.
#[derive(Clone, Debug)]
pub struct ChunkMetadata {
    pub file_path: String,
    pub language: String,
    pub node_kind: String,
    pub start_line: usize,
    pub end_line: usize,
    pub parent_context: Option<String>,
}

/// A chunk, but for its id, as a mathematical value.
#[verifier::ext_equal]
pub struct ChunkView {
    pub text: Seq<char>,
    pub path: Seq<char>,
    pub language: Seq<char>,
    pub kind: Seq<char>,
    pub first_line: int,
    pub last_line: int,
    pub context: Option<Seq<char>>,
}

/// An optional text as a mathematical value.
pub open spec fn text_view(text: Option<String>) -> Option<Seq<char>> {
    match text {
        Some(text) => Some(text@),
        None => None,
    }
}

impl View for Chunk {
    type V = ChunkView;

    open spec fn view(&self) -> ChunkView {
        ChunkView {
            text: self.text@,
            path: self.metadata.file_path@,
            language: self.metadata.language@,
            kind: self.metadata.node_kind@,
            first_line: self.metadata.start_line as int,
            last_line: self.metadata.end_line as int,
            context: text_view(self.metadata.parent_context),
        }
    }
}

/// A copy of an optional text.
pub fn copy_text(text: &Option<String>) -> (copy: Option<String>)
    ensures
        text_view(copy) == text_view(*text),
{
    match text {
        Some(text) => Some(text.clone()),
        None => None,
    }
}

} // verus!
