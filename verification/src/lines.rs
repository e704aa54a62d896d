//! Byte positions and lines of a source text.
//!
//! A text is measured in the bytes of its UTF-8 encoding. A byte position is
//! usable as a cut only where it does not fall inside a character.
use vstd::prelude::*;
use vstd::utf8::*;
use vstd::string::*;

verus! {

/// The UTF-8 encoding of a text.
pub open spec fn bytes_of(text: Seq<char>) -> Seq<u8> {
    encode_utf8(text)
}

/// The number that `n` gives in a `usize`, which stops at the largest one.
pub open spec fn capped(n: int) -> int {
    if n <= usize::MAX {
        n
    } else {
        usize::MAX as int
    }
}

/// The lesser of two numbers.
pub open spec fn lesser(a: int, b: int) -> int {
    if a <= b {
        a
    } else {
        b
    }
}

/// Whether the text can be cut at byte `at`; a position behind the end counts
/// as the end.
pub open spec fn cut_ok(bytes: Seq<u8>, at: int) -> bool {
    is_char_boundary(bytes, lesser(at, bytes.len() as int))
}

/// The bytes from `start` to `end`, both held inside the text.
pub open spec fn cut_out(bytes: Seq<u8>, start: int, end: int) -> Seq<u8> {
    let from = lesser(start, bytes.len() as int);
    let to = lesser(end, bytes.len() as int);
    if from >= to {
        Seq::empty()
    } else {
        bytes.subrange(from, to)
    }
}

/// Whether the bytes from `start` to `end` can be cut out: nothing is cut
/// where the range is empty.
pub open spec fn range_ok(bytes: Seq<u8>, start: int, end: int) -> bool {
    lesser(start, bytes.len() as int) < lesser(end, bytes.len() as int) ==> cut_ok(bytes, start)
        && cut_ok(bytes, end)
}

/// The length of `text` in bytes.
pub fn byte_len(text: &str) -> (len: usize)
    ensures
        len == bytes_of(text@).len(),
{
    let bytes = text.as_bytes();
    bytes.len()
}

/// Whether `source` can be cut at byte `at`.
pub fn can_cut(source: &str, at: usize) -> (ok: bool)
    ensures
        ok == cut_ok(bytes_of(source@), at as int),
{
    let len: usize = byte_len(source);
    if at <= len {
        source.is_char_boundary(at)
    } else {
        source.is_char_boundary(len)
    }
}

/// Whether the bytes from `start` to `end` of `source` can be cut out.
pub fn can_slice(source: &str, start: usize, end: usize) -> (ok: bool)
    ensures
        ok == range_ok(bytes_of(source@), start as int, end as int),
{
    let len: usize = byte_len(source);
    let from: usize = if start <= len {
        start
    } else {
        len
    };
    let to: usize = if end <= len {
        end
    } else {
        len
    };
    if from >= to {
        true
    } else {
        can_cut(source, start) && can_cut(source, end)
    }
}

/// A cut before another one is a cut of what stands before the other.
pub proof fn lemma_cut_of_prefix(bytes: Seq<u8>, at: int, end: int)
    requires
        valid_utf8(bytes),
        0 <= at <= end <= bytes.len(),
        is_char_boundary(bytes, at),
        is_char_boundary(bytes, end),
    ensures
        valid_utf8(bytes.subrange(0, end)),
        is_char_boundary(bytes.subrange(0, end), at),
{
    let prefix = bytes.subrange(0, end);
    valid_utf8_split(bytes, end);
    if at == end {
        is_char_boundary_start_end_of_seq(prefix);
    } else {
        is_char_boundary_iff_not_is_continuation_byte(bytes, at);
        is_char_boundary_iff_not_is_continuation_byte(prefix, at);
        assert(prefix[at] == bytes[at]);
    }
}

/// A character starts behind a character of one byte, and at one.
pub proof fn lemma_cut_beside_ascii(bytes: Seq<u8>, at: int)
    requires
        valid_utf8(bytes),
        0 <= at <= bytes.len(),
        at == 0 || at == bytes.len() || bytes[at] < 128 || bytes[at - 1] < 128,
    ensures
        is_char_boundary(bytes, at),
{
    is_char_boundary_start_end_of_seq(bytes);
    if 0 < at < bytes.len() {
        is_char_boundary_iff_not_is_continuation_byte(bytes, at);
        if bytes[at] >= 128 {
            is_char_boundary_iff_not_is_continuation_byte(bytes, at - 1);
            valid_utf8_split(bytes, at - 1);
            let rest = bytes.subrange(at - 1, bytes.len() as int);
            assert(rest[0] == bytes[at - 1]);
            assert(rest[1] == bytes[at]);
            reveal_with_fuel(valid_utf8, 2);
            let behind = pop_first_scalar(rest);
            assert(length_of_first_scalar(rest) == 1);
            assert(behind[0] == bytes[at]);
            assert(valid_first_scalar(behind));
        }
    }
}

/// The text between two byte positions, both held inside the text.
pub fn slice_source(source: &str, start: usize, end: usize) -> (slice: String)
    requires
        range_ok(bytes_of(source@), start as int, end as int),
    ensures
        bytes_of(slice@) == cut_out(bytes_of(source@), start as int, end as int),
        slice@ == decode_utf8(cut_out(bytes_of(source@), start as int, end as int)),
{
    let len: usize = byte_len(source);
    let from: usize = if start <= len {
        start
    } else {
        len
    };
    let to: usize = if end <= len {
        end
    } else {
        len
    };
    if from >= to {
        let none = String::new();
        proof {
            encode_utf8_decode_utf8(none@);
            assert(bytes_of(none@) =~= Seq::<u8>::empty());
        }
        return none;
    }
    let ghost bytes = bytes_of(source@);
    proof {
        encode_utf8_valid_utf8(source@);
        lemma_cut_of_prefix(bytes, from as int, to as int);
    }
    let head = source.split_at(to).0;
    let slice = head.split_at(from).1;
    let out: String = slice.to_owned();
    proof {
        assert(bytes.subrange(0, to as int).subrange(from as int, to as int) =~= bytes.subrange(
            from as int,
            to as int,
        ));
        encode_utf8_decode_utf8(out@);
    }
    out
}

// ---------------------------------------------------------------------------
// Lines
// ---------------------------------------------------------------------------

/// Where the line of byte `at` ends in a text that ends at `end`: behind its line
/// feed, or at the end.
pub open spec fn line_end(bytes: Seq<u8>, at: int, end: int) -> int
    decreases end - at,
{
    if at >= end {
        end
    } else if bytes[at] == 10 {
        at + 1
    } else {
        line_end(bytes, at + 1, end)
    }
}

/// A line ends behind the position that it is looked for from, and no line feed
/// stands in it but the last byte.
pub proof fn lemma_line_end(bytes: Seq<u8>, at: int, end: int)
    requires
        0 <= at < end <= bytes.len(),
    ensures
        at < line_end(bytes, at, end) <= end,
        line_end(bytes, at, end) < end ==> bytes[line_end(bytes, at, end) - 1] == 10,
        forall|k: int| at <= k < line_end(bytes, at, end) - 1 ==> bytes[k] != 10,
    decreases end - at,
{
    if bytes[at] != 10 {
        assert(line_end(bytes, at, end) == line_end(bytes, at + 1, end));
        if at + 1 < end {
            lemma_line_end(bytes, at + 1, end);
        } else {
            assert(line_end(bytes, at + 1, end) == end);
        }
    }
}

/// Where the line of byte `at` ends in a text that ends at `end`.
pub fn find_line_end(bytes: &[u8], at: usize, end: usize) -> (found: usize)
    requires
        at < end <= bytes@.len(),
    ensures
        found == line_end(bytes@, at as int, end as int),
        at < found <= end,
{
    let mut i: usize = at;
    while i < end && bytes[i] != 10
        invariant
            at <= i <= end <= bytes@.len(),
            line_end(bytes@, at as int, end as int) == line_end(bytes@, i as int, end as int),
        decreases end - i,
    {
        i = i + 1;
    }
    if i < end {
        i + 1
    } else {
        end
    }
}

/// The last position not behind `at` where a character starts or the text ends.
pub open spec fn char_start(bytes: Seq<u8>, at: int) -> int
    decreases at,
{
    if at <= 0 || is_char_boundary(bytes, at) {
        at
    } else {
        char_start(bytes, at - 1)
    }
}

/// A character takes up four bytes at most: behind a position where one starts,
/// the next one starts, or the text ends.
proof fn lemma_next_boundary(bytes: Seq<u8>, at: int) -> (next: int)
    requires
        valid_utf8(bytes),
        0 <= at < bytes.len(),
        is_char_boundary(bytes, at),
    ensures
        at < next <= at + 4,
        next <= bytes.len(),
        is_char_boundary(bytes, next),
{
    valid_utf8_split(bytes, at);
    is_char_boundary_start_end_of_seq(bytes);
    let rest = bytes.subrange(at, bytes.len() as int);
    let next = at + length_of_first_scalar(rest);
    if next < bytes.len() {
        reveal_with_fuel(valid_utf8, 2);
        let behind = pop_first_scalar(rest);
        assert(behind[0] == bytes[next]);
        assert(valid_first_scalar(behind));
        is_char_boundary_iff_not_is_continuation_byte(bytes, next);
    }
    next
}

/// The last start of a character before a position lies behind any start of a
/// character that is at least four bytes before it.
pub proof fn lemma_char_start(bytes: Seq<u8>, from: int, at: int)
    requires
        valid_utf8(bytes),
        0 <= from,
        from + 4 <= at <= bytes.len(),
        is_char_boundary(bytes, from),
    ensures
        from < char_start(bytes, at) <= at,
        is_char_boundary(bytes, char_start(bytes, at)),
{
    let next = lemma_next_boundary(bytes, from);
    lemma_char_start_from(bytes, next, at);
}

/// The last start of a character before a position is no earlier than any other.
pub proof fn lemma_char_start_from(bytes: Seq<u8>, from: int, at: int)
    requires
        0 <= from <= at,
        is_char_boundary(bytes, from),
    ensures
        from <= char_start(bytes, at) <= at,
        is_char_boundary(bytes, char_start(bytes, at)),
    decreases at,
{
    if at > from && !is_char_boundary(bytes, at) {
        lemma_char_start_from(bytes, from, at - 1);
    }
}

/// The last start of a character before a position is at most three bytes before
/// it.
pub proof fn lemma_char_start_near(bytes: Seq<u8>, at: int)
    requires
        valid_utf8(bytes),
        0 <= at <= bytes.len(),
    ensures
        0 <= char_start(bytes, at),
        at - 3 <= char_start(bytes, at) <= at,
        is_char_boundary(bytes, char_start(bytes, at)),
{
    is_char_boundary_start_end_of_seq(bytes);
    lemma_char_start_from(bytes, 0, at);
    let found = char_start(bytes, at);
    if found + 4 <= at {
        lemma_char_start(bytes, found, at);
    }
}

/// The last position not behind `at` where a character starts.
pub fn find_char_start(source: &str, at: usize) -> (found: usize)
    requires
        at <= bytes_of(source@).len(),
    ensures
        found == char_start(bytes_of(source@), at as int),
        found <= at,
{
    let mut i: usize = at;
    while i > 0 && !source.is_char_boundary(i)
        invariant
            i <= at <= bytes_of(source@).len(),
            char_start(bytes_of(source@), at as int) == char_start(bytes_of(source@), i as int),
        decreases i,
    {
        i = i - 1;
    }
    i
}

/// The number of line feeds.
pub open spec fn newlines(bytes: Seq<u8>) -> int
    decreases bytes.len(),
{
    if bytes.len() == 0 {
        0
    } else {
        newlines(bytes.drop_last()) + if bytes.last() == 10 {
            1int
        } else {
            0
        }
    }
}

/// The line feeds of two texts add up.
pub proof fn lemma_newlines_add(a: Seq<u8>, b: Seq<u8>)
    ensures
        newlines(a + b) == newlines(a) + newlines(b),
        0 <= newlines(b) <= b.len(),
    decreases b.len(),
{
    if b.len() == 0 {
        assert(a + b =~= a);
    } else {
        lemma_newlines_add(a, b.drop_last());
        assert((a + b).drop_last() =~= a + b.drop_last());
        assert((a + b).last() == b.last());
    }
}

/// The line feeds of neighbouring parts of a text add up.
pub proof fn lemma_newlines_between(bytes: Seq<u8>, from: int, mid: int, to: int)
    requires
        0 <= from <= mid <= to <= bytes.len(),
    ensures
        newlines(bytes.subrange(from, to)) == newlines(bytes.subrange(from, mid)) + newlines(
            bytes.subrange(mid, to),
        ),
        0 <= newlines(bytes.subrange(from, to)) <= to - from,
{
    assert(bytes.subrange(from, to) =~= bytes.subrange(from, mid) + bytes.subrange(mid, to));
    lemma_newlines_add(bytes.subrange(from, mid), bytes.subrange(mid, to));
    lemma_newlines_add(Seq::<u8>::empty(), bytes.subrange(from, to));
}

/// The number of line feeds from byte `from` to byte `to`.
pub fn count_newlines(bytes: &[u8], from: usize, to: usize) -> (count: usize)
    requires
        from <= to <= bytes@.len(),
    ensures
        count == newlines(bytes@.subrange(from as int, to as int)),
        count <= to - from,
{
    let mut count: usize = 0;
    let mut i: usize = from;
    assert(bytes@.subrange(from as int, from as int) =~= Seq::<u8>::empty());
    while i < to
        invariant
            from <= i <= to <= bytes@.len(),
            count == newlines(bytes@.subrange(from as int, i as int)),
            count <= i - from,
        decreases to - i,
    {
        assert(bytes@.subrange(from as int, i + 1).drop_last() =~= bytes@.subrange(
            from as int,
            i as int,
        ));
        if bytes[i] == 10 {
            count = count + 1;
        }
        i = i + 1;
    }
    count
}

/// The line, counted from one, that byte `byte` of `source` stands in.
pub fn line_for_byte(source: &str, byte: usize) -> (line: usize)
    ensures
        line == capped(
            1 + newlines(
                bytes_of(source@).take(lesser(byte as int, bytes_of(source@).len() as int)),
            ),
        ),
{
    let bytes = source.as_bytes();
    let end: usize = if byte <= bytes.len() {
        byte
    } else {
        bytes.len()
    };
    let mut count: usize = 1;
    let mut i: usize = 0;
    while i < end
        invariant
            i <= end <= bytes@.len(),
            count == capped(1 + newlines(bytes@.take(i as int))),
            newlines(bytes@.take(i as int)) >= 0,
        decreases end - i,
    {
        proof {
            assert(bytes@.take(i + 1).drop_last() =~= bytes@.take(i as int));
        }
        if bytes[i] == 10 {
            count = count.saturating_add(1);
        }
        i = i + 1;
    }
    count
}

/// The last position not behind `at` where a line starts.
pub open spec fn line_start(bytes: Seq<u8>, at: int) -> int
    decreases at,
{
    if at <= 0 {
        0
    } else if bytes[at - 1] == 10 {
        at
    } else {
        line_start(bytes, at - 1)
    }
}

/// The position where the line of byte `byte` starts.
pub fn line_start_for_byte(source: &str, byte: usize) -> (start: usize)
    ensures
        start == line_start(
            bytes_of(source@),
            lesser(byte as int, bytes_of(source@).len() as int),
        ),
        start <= byte,
{
    let bytes = source.as_bytes();
    let end: usize = if byte <= bytes.len() {
        byte
    } else {
        bytes.len()
    };
    let mut at: usize = end;
    while at > 0 && bytes[at - 1] != 10
        invariant
            at <= end <= bytes@.len(),
            line_start(bytes@, end as int) == line_start(bytes@, at as int),
        decreases at,
    {
        at = at - 1;
    }
    at
}

/// A line starts at the start of the text or behind a line feed, and no line
/// feed stands between the start of a line and a position in it.
pub proof fn lemma_line_start(bytes: Seq<u8>, at: int)
    requires
        0 <= at <= bytes.len(),
    ensures
        0 <= line_start(bytes, at) <= at,
        line_start(bytes, at) > 0 ==> bytes[line_start(bytes, at) - 1] == 10,
        forall|k: int| line_start(bytes, at) <= k < at ==> bytes[k] != 10,
    decreases at,
{
    if at > 0 && bytes[at - 1] != 10 {
        lemma_line_start(bytes, at - 1);
    }
}

} // verus!
