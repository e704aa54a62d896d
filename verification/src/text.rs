//! Text operations over character sequences: searching, splitting, trimming,
//! replacing and number formatting.
use vstd::prelude::*;

verus! {

// ---------------------------------------------------------------------------
// Standard library functions that text is built with
// ---------------------------------------------------------------------------

/// `String::push` appends one character.
pub assume_specification[ String::push ](s: &mut String, c: char)
    ensures
        final(s)@ == old(s)@.push(c),
;

/// `String::push_str` appends a whole string slice.
pub assume_specification[ String::push_str ](s: &mut String, tail: &str)
    ensures
        final(s)@ == old(s)@ + tail@,
;

/// The lower case form of a text, as `str::to_lowercase` gives it.
pub uninterp spec fn lowercase(text: Seq<char>) -> Seq<char>;

/// `str::to_lowercase` maps a text to its Unicode lower case form, which is a
/// function of the text alone.
pub assume_specification[ str::to_lowercase ](s: &str) -> (lower: String)
    ensures
        lower@ == lowercase(s@),
;

// ---------------------------------------------------------------------------
// Characters and conversion
// ---------------------------------------------------------------------------

/// The characters of `text` as a vector.
pub fn chars_of(text: &str) -> (chars: Vec<char>)
    ensures
        chars@ == text@,
{
    let mut chars: Vec<char> = Vec::new();
    for c in it: text.chars()
        invariant
            chars@ == it.seq().take(it.index() as int),
            it.seq() == text@,
    {
        chars.push(c);
    }
    chars
}

/// The text made of `chars[from..to]`.
pub fn text_between(chars: &Vec<char>, from: usize, to: usize) -> (text: String)
    requires
        from <= to <= chars@.len(),
    ensures
        text@ == chars@.subrange(from as int, to as int),
{
    let mut text = String::new();
    let mut i: usize = from;
    while i < to
        invariant
            from <= i <= to <= chars@.len(),
            text@ == chars@.subrange(from as int, i as int),
        decreases to - i,
    {
        text.push(chars[i]);
        i = i + 1;
    }
    text
}

/// One text behind the other.
pub fn concat(a: &str, b: &str) -> (out: String)
    ensures
        out@ == a@ + b@,
{
    let mut out: String = a.to_owned();
    out.push_str(b);
    out
}

/// Whether two texts hold the same characters.
pub fn same_text(a: &str, b: &str) -> (same: bool)
    ensures
        same == (a@ == b@),
{
    let left: String = a.to_owned();
    let right: String = b.to_owned();
    left == right
}

/// Whether `list` holds a text equal to `text`.
pub open spec fn lists_text(list: Seq<String>, text: Seq<char>) -> bool {
    exists|i: int| 0 <= i < list.len() && (#[trigger] list[i])@ == text
}

/// Whether some entry of `list` equals `text`.
pub fn contains_text(list: &Vec<String>, text: &str) -> (found: bool)
    ensures
        found == lists_text(list@, text@),
{
    let mut i: usize = 0;
    while i < list.len()
        invariant
            i <= list@.len(),
            forall|k: int| 0 <= k < i ==> (#[trigger] list@[k])@ != text@,
        decreases list@.len() - i,
    {
        if same_text(list[i].as_str(), text) {
            return true;
        }
        i = i + 1;
    }
    false
}

/// The contents of a list of strings.
pub open spec fn texts(list: Seq<String>) -> Seq<Seq<char>> {
    Seq::new(list.len(), |i: int| list[i]@)
}

/// The texts of lists of strings.
pub open spec fn text_lists(lists: Seq<Vec<String>>) -> Seq<Seq<Seq<char>>> {
    Seq::new(lists.len(), |i: int| texts(lists[i]@))
}

/// A copy of a list of strings with the same contents.
pub fn clone_texts(list: &Vec<String>) -> (copy: Vec<String>)
    ensures
        copy@ == list@,
{
    let mut copy: Vec<String> = Vec::new();
    let mut i: usize = 0;
    while i < list.len()
        invariant
            i <= list@.len(),
            copy@ == list@.take(i as int),
        decreases list@.len() - i,
    {
        copy.push(list[i].clone());
        i = i + 1;
    }
    assert(list@.take(i as int) =~= list@);
    copy
}

// ---------------------------------------------------------------------------
// White space
// ---------------------------------------------------------------------------

/// The characters with the Unicode property `White_Space`.
pub open spec fn white(c: char) -> bool {
    ||| '\u{9}' <= c <= '\u{d}'
    ||| c == ' '
    ||| c == '\u{85}'
    ||| c == '\u{a0}'
    ||| c == '\u{1680}'
    ||| '\u{2000}' <= c <= '\u{200a}'
    ||| c == '\u{2028}'
    ||| c == '\u{2029}'
    ||| c == '\u{202f}'
    ||| c == '\u{205f}'
    ||| c == '\u{3000}'
}

/// Whether `c` is white space.
pub fn is_white(c: char) -> (is: bool)
    ensures
        is == white(c),
{
    ('\u{9}' <= c && c <= '\u{d}') || c == ' ' || c == '\u{85}' || c == '\u{a0}' || c == '\u{1680}'
        || ('\u{2000}' <= c && c <= '\u{200a}') || c == '\u{2028}' || c == '\u{2029}' || c
        == '\u{202f}' || c == '\u{205f}' || c == '\u{3000}'
}

/// A text is blank when it holds nothing but white space.
pub open spec fn blank(text: Seq<char>) -> bool {
    forall|i: int| 0 <= i < text.len() ==> white(#[trigger] text[i])
}

/// Whether `text` holds nothing but white space.
pub fn is_blank(text: &str) -> (is: bool)
    ensures
        is == blank(text@),
{
    let chars = chars_of(text);
    let mut i: usize = 0;
    while i < chars.len()
        invariant
            i <= chars@.len(),
            chars@ == text@,
            forall|k: int| 0 <= k < i ==> white(#[trigger] chars@[k]),
        decreases chars@.len() - i,
    {
        if !is_white(chars[i]) {
            assert(!white(text@[i as int]));
            return false;
        }
        i = i + 1;
    }
    true
}

/// A text without the white space that it starts with.
pub open spec fn trimmed_start(text: Seq<char>) -> Seq<char>
    decreases text.len(),
{
    if text.len() > 0 && white(text[0]) {
        trimmed_start(text.drop_first())
    } else {
        text
    }
}

/// A text without the white space that it ends with.
pub open spec fn trimmed_end(text: Seq<char>) -> Seq<char>
    decreases text.len(),
{
    if text.len() > 0 && white(text.last()) {
        trimmed_end(text.drop_last())
    } else {
        text
    }
}

/// A text without the white space around it.
pub open spec fn trimmed(text: Seq<char>) -> Seq<char> {
    trimmed_end(trimmed_start(text))
}

/// Removes the white space around `text`.
pub fn trim(text: &str) -> (out: String)
    ensures
        out@ == trimmed(text@),
{
    let chars = chars_of(text);
    let mut from: usize = 0;
    let mut to: usize = chars.len();
    proof {
        assert(chars@.skip(0) =~= chars@);
    }
    while from < to && is_white(chars[from])
        invariant
            from <= to == chars@.len(),
            trimmed_start(chars@) == trimmed_start(chars@.skip(from as int)),
        decreases to - from,
    {
        assert(chars@.skip(from as int).drop_first() =~= chars@.skip(from + 1));
        from = from + 1;
    }
    assert(trimmed_start(chars@) == chars@.skip(from as int));
    assert(chars@.subrange(from as int, to as int) =~= chars@.skip(from as int));
    while from < to && is_white(chars[to - 1])
        invariant
            from <= to <= chars@.len(),
            trimmed(chars@) == trimmed_end(chars@.subrange(from as int, to as int)),
        decreases to - from,
    {
        assert(chars@.subrange(from as int, to as int).drop_last() =~= chars@.subrange(
            from as int,
            to - 1,
        ));
        to = to - 1;
    }
    text_between(&chars, from, to)
}

/// A text without the copies of `c` that it ends with.
pub open spec fn without_trailing(text: Seq<char>, c: char) -> Seq<char>
    decreases text.len(),
{
    if text.len() > 0 && text.last() == c {
        without_trailing(text.drop_last(), c)
    } else {
        text
    }
}

/// Removes the copies of `c` at the end of `text`.
pub fn trim_trailing(text: &str, c: char) -> (out: String)
    ensures
        out@ == without_trailing(text@, c),
{
    let chars = chars_of(text);
    let mut to: usize = chars.len();
    proof {
        assert(chars@.take(to as int) =~= chars@);
    }
    while to > 0 && chars[to - 1] == c
        invariant
            to <= chars@.len(),
            without_trailing(chars@, c) == without_trailing(chars@.take(to as int), c),
        decreases to,
    {
        assert(chars@.take(to as int).drop_last() =~= chars@.take(to - 1));
        to = to - 1;
    }
    assert(chars@.subrange(0, to as int) =~= chars@.take(to as int));
    text_between(&chars, 0, to)
}

// ---------------------------------------------------------------------------
// Searching
// ---------------------------------------------------------------------------

/// Whether `part` stands in `text` at position `at`.
pub open spec fn stands_at(text: Seq<char>, part: Seq<char>, at: int) -> bool {
    0 <= at && at + part.len() <= text.len() && text.subrange(at, at + part.len()) == part
}

/// Whether `part` stands anywhere in `text`.
pub open spec fn holds_part(text: Seq<char>, part: Seq<char>) -> bool {
    exists|at: int| stands_at(text, part, at)
}

/// The first position of `part` in `text` that is not before `from`.
pub open spec fn first_from(text: Seq<char>, part: Seq<char>, from: int) -> Option<int>
    decreases text.len() + 1 - from,
{
    if from + part.len() > text.len() {
        None
    } else if stands_at(text, part, from) {
        Some(from)
    } else {
        first_from(text, part, from + 1)
    }
}

/// `first_from` finds the least position, and misses only where there is none.
pub proof fn lemma_first_from(text: Seq<char>, part: Seq<char>, from: int)
    requires
        0 <= from,
    ensures
        match first_from(text, part, from) {
            Some(at) => from <= at && stands_at(text, part, at) && forall|k: int|
                from <= k < at ==> !#[trigger] stands_at(text, part, k),
            None => forall|k: int| from <= k ==> !#[trigger] stands_at(text, part, k),
        },
    decreases text.len() + 1 - from,
{
    if from + part.len() > text.len() {
    } else if stands_at(text, part, from) {
    } else {
        lemma_first_from(text, part, from + 1);
    }
}

/// Whether `part` stands in `text` at position `at`, by comparing characters.
fn matches_at(text: &Vec<char>, part: &Vec<char>, at: usize) -> (found: bool)
    requires
        at + part@.len() <= text@.len(),
    ensures
        found == stands_at(text@, part@, at as int),
{
    let total: usize = text.len();
    let mut i: usize = 0;
    while i < part.len()
        invariant
            i <= part@.len(),
            at + part@.len() <= text@.len() == total,
            forall|k: int| 0 <= k < i ==> text@[at + k] == part@[k],
        decreases part@.len() - i,
    {
        if text[at + i] != part[i] {
            assert(text@.subrange(at as int, at + part@.len())[i as int] != part@[i as int]);
            return false;
        }
        i = i + 1;
    }
    assert(text@.subrange(at as int, at + part@.len()) =~= part@);
    true
}

/// Searches for the first position of `part` in `text`.
pub fn find_part(text: &Vec<char>, part: &Vec<char>) -> (at: Option<usize>)
    ensures
        match at {
            Some(at) => first_from(text@, part@, 0) == Some(at as int),
            None => first_from(text@, part@, 0) is None,
        },
{
    if part.len() > text.len() {
        return None;
    }
    let last: usize = text.len() - part.len();
    let mut i: usize = 0;
    loop
        invariant
            i <= last,
            last + part@.len() == text@.len(),
            first_from(text@, part@, 0) == first_from(text@, part@, i as int),
        decreases last - i,
    {
        if matches_at(text, part, i) {
            return Some(i);
        }
        if i == last {
            assert(first_from(text@, part@, i + 1) is None);
            return None;
        }
        i = i + 1;
    }
}

/// Whether `part` stands anywhere in `text`.
pub fn contains_part(text: &str, part: &str) -> (found: bool)
    ensures
        found == holds_part(text@, part@),
{
    let haystack = chars_of(text);
    let needle = chars_of(part);
    proof {
        lemma_first_from(text@, part@, 0);
    }
    let at = find_part(&haystack, &needle);
    at.is_some()
}

/// Splits `text` around the first `separator` in it.
pub fn split_once(text: &str, separator: &str) -> (parts: Option<(String, String)>)
    ensures
        match (first_from(text@, separator@, 0), parts) {
            (Some(at), Some(parts)) => {
                &&& parts.0@ == text@.take(at)
                &&& parts.1@ == text@.skip(at + separator@.len())
            },
            (None, None) => true,
            _ => false,
        },
{
    let chars = chars_of(text);
    let part = chars_of(separator);
    proof {
        lemma_first_from(text@, separator@, 0);
    }
    match find_part(&chars, &part) {
        Some(at) => {
            let total: usize = chars.len();
            let head = text_between(&chars, 0, at);
            let tail = text_between(&chars, at + part.len(), total);
            assert(head@ =~= text@.take(at as int));
            assert(tail@ =~= text@.skip(at + separator@.len()));
            Some((head, tail))
        },
        None => None,
    }
}

// ---------------------------------------------------------------------------
// Replacing, splitting, joining
// ---------------------------------------------------------------------------

/// `text` with each `part` in it, from left to right, replaced by `with`.
pub open spec fn replaced(text: Seq<char>, part: Seq<char>, with: Seq<char>) -> Seq<char>
    decreases text.len(),
{
    if part.len() == 0 || text.len() < part.len() {
        text
    } else if text.take(part.len() as int) == part {
        with + replaced(text.skip(part.len() as int), part, with)
    } else {
        seq![text[0]] + replaced(text.drop_first(), part, with)
    }
}

/// Replaces each `part` in `text` by `with`. `part` must not be empty.
pub fn replace_part(text: &str, part: &str, with: &str) -> (out: String)
    requires
        part@.len() > 0,
    ensures
        out@ == replaced(text@, part@, with@),
{
    let chars = chars_of(text);
    let pattern = chars_of(part);
    let mut out = String::new();
    let mut i: usize = 0;
    proof {
        assert(chars@.skip(0) =~= chars@);
        assert(Seq::<char>::empty() + replaced(chars@, part@, with@) =~= replaced(
            chars@,
            part@,
            with@,
        ));
    }
    while i < chars.len() && chars.len() - i >= pattern.len()
        invariant
            i <= chars@.len(),
            pattern@ == part@,
            pattern@.len() > 0,
            replaced(chars@, part@, with@) == out@ + replaced(chars@.skip(i as int), part@, with@),
        decreases chars@.len() - i,
    {
        let ghost rest = chars@.skip(i as int);
        if matches_at(&chars, &pattern, i) {
            proof {
                assert(rest.take(part@.len() as int) =~= chars@.subrange(
                    i as int,
                    i + part@.len(),
                ));
                assert(rest.skip(part@.len() as int) =~= chars@.skip(i + part@.len()));
                assert(out@ + (with@ + replaced(chars@.skip(i + part@.len()), part@, with@))
                    =~= (out@ + with@) + replaced(chars@.skip(i + part@.len()), part@, with@));
            }
            out.push_str(with);
            i = i + pattern.len();
        } else {
            proof {
                assert(rest.take(part@.len() as int) =~= chars@.subrange(
                    i as int,
                    i + part@.len(),
                ));
                assert(rest.drop_first() =~= chars@.skip(i + 1));
                assert(out@ + (seq![rest[0]] + replaced(chars@.skip(i + 1), part@, with@))
                    =~= out@.push(rest[0]) + replaced(chars@.skip(i + 1), part@, with@));
            }
            out.push(chars[i]);
            i = i + 1;
        }
    }
    let ghost rest = chars@.skip(i as int);
    assert(replaced(rest, part@, with@) == rest);
    let tail = text_between(&chars, i, chars.len());
    assert(tail@ =~= rest);
    out.push_str(tail.as_str());
    out
}

/// The position of the first `c` in `text`, or its length.
pub open spec fn first_char(text: Seq<char>, c: char) -> int
    decreases text.len(),
{
    if text.len() == 0 || text[0] == c {
        0
    } else {
        1 + first_char(text.drop_first(), c)
    }
}

/// The pieces of `text` between the copies of `c` in it: one more than there
/// are copies.
pub open spec fn split_on(text: Seq<char>, c: char) -> Seq<Seq<char>>
    decreases text.len(),
{
    let at = first_char(text, c);
    if 0 <= at < text.len() {
        seq![text.take(at)] + split_on(text.skip(at + 1), c)
    } else {
        seq![text]
    }
}

/// `first_char` is in range, and finds the first copy.
pub proof fn lemma_first_char(text: Seq<char>, c: char)
    ensures
        0 <= first_char(text, c) <= text.len(),
        forall|k: int| 0 <= k < first_char(text, c) ==> text[k] != c,
        first_char(text, c) < text.len() ==> text[first_char(text, c)] == c,
    decreases text.len(),
{
    if text.len() == 0 || text[0] == c {
    } else {
        let rest = text.drop_first();
        lemma_first_char(rest, c);
        assert forall|k: int| 0 <= k < first_char(text, c) implies text[k] != c by {
            if k > 0 {
                assert(rest[k - 1] == text[k]);
            }
        }
    }
}

/// What is first is first: a copy with none before it is the first.
pub proof fn lemma_first_char_is(text: Seq<char>, c: char, at: int)
    requires
        0 <= at <= text.len(),
        forall|k: int| 0 <= k < at ==> text[k] != c,
        at < text.len() ==> text[at] == c,
    ensures
        first_char(text, c) == at,
{
    lemma_first_char(text, c);
    let found = first_char(text, c);
    if found < at {
        assert(text[found] != c);
    }
}

/// There is at least one piece, and no piece holds the character between them.
pub proof fn lemma_split_on(text: Seq<char>, c: char)
    ensures
        split_on(text, c).len() > 0,
        forall|k: int|
            0 <= k < split_on(text, c).len() ==> !(#[trigger] split_on(text, c)[k]).contains(c),
    decreases text.len(),
{
    lemma_first_char(text, c);
    let at = first_char(text, c);
    if at < text.len() {
        let rest = text.skip(at + 1);
        lemma_split_on(rest, c);
        assert forall|k: int| 0 <= k < split_on(text, c).len() implies !(#[trigger] split_on(
            text,
            c,
        )[k]).contains(c) by {
            if k > 0 {
                assert(split_on(text, c)[k] == split_on(rest, c)[k - 1]);
            }
        }
    }
}

/// Splits `text` at each copy of `c`.
pub fn split_text(text: &str, c: char) -> (parts: Vec<String>)
    ensures
        texts(parts@) == split_on(text@, c),
{
    let chars = chars_of(text);
    let mut parts: Vec<String> = Vec::new();
    let mut from: usize = 0;
    let mut i: usize = 0;
    proof {
        assert(chars@.skip(0) =~= chars@);
        assert(texts(parts@) + split_on(chars@, c) =~= split_on(chars@, c));
    }
    while i < chars.len()
        invariant
            from <= i <= chars@.len(),
            split_on(chars@, c) == texts(parts@) + split_on(chars@.skip(from as int), c),
            forall|k: int| from <= k < i ==> chars@[k] != c,
        decreases chars@.len() - i,
    {
        if chars[i] == c {
            let piece = text_between(&chars, from, i);
            proof {
                let rest = chars@.skip(from as int);
                lemma_first_char_is(rest, c, i - from);
                assert(rest.take(i - from) =~= piece@);
                assert(rest.skip(i - from + 1) =~= chars@.skip(i + 1));
                assert(texts(parts@.push(piece)) =~= texts(parts@).push(piece@));
                assert(texts(parts@) + (seq![piece@] + split_on(chars@.skip(i + 1), c))
                    =~= texts(parts@).push(piece@) + split_on(chars@.skip(i + 1), c));
            }
            parts.push(piece);
            from = i + 1;
        }
        i = i + 1;
    }
    let piece = text_between(&chars, from, chars.len());
    proof {
        let rest = chars@.skip(from as int);
        lemma_first_char_is(rest, c, rest.len() as int);
        assert(rest =~= piece@);
        assert(texts(parts@.push(piece)) =~= texts(parts@) + seq![piece@]);
    }
    parts.push(piece);
    parts
}

/// `parts` in order with `separator` between them.
pub open spec fn joined(parts: Seq<Seq<char>>, separator: Seq<char>) -> Seq<char>
    decreases parts.len(),
{
    if parts.len() == 0 {
        Seq::empty()
    } else if parts.len() == 1 {
        parts[0]
    } else {
        joined(parts.drop_last(), separator) + separator + parts.last()
    }
}

/// Joins `parts` with `separator` between them.
pub fn join_texts(parts: &Vec<String>, separator: &str) -> (out: String)
    ensures
        out@ == joined(texts(parts@), separator@),
{
    let mut out = String::new();
    let mut i: usize = 0;
    let ghost all = texts(parts@);
    while i < parts.len()
        invariant
            i <= parts@.len(),
            all == texts(parts@),
            out@ == joined(all.take(i as int), separator@),
        decreases parts@.len() - i,
    {
        proof {
            assert(all.take(i + 1).drop_last() =~= all.take(i as int));
        }
        if i > 0 {
            out.push_str(separator);
        } else {
            assert(out@ + all[0] =~= all[0]);
        }
        out.push_str(parts[i].as_str());
        i = i + 1;
    }
    assert(all.take(i as int) =~= all);
    out
}

// ---------------------------------------------------------------------------
// Numbers
// ---------------------------------------------------------------------------

/// The decimal digits of `n`, without leading zeros.
pub open spec fn decimal(n: nat) -> Seq<char>
    decreases n,
{
    if n < 10 {
        seq![(48 + n) as char]
    } else {
        decimal(n / 10).push((48 + n % 10) as char)
    }
}

/// Appends `n` in decimal.
pub fn push_decimal(out: &mut String, n: u64)
    ensures
        final(out)@ == old(out)@ + decimal(n as nat),
    decreases n,
{
    if n < 10 {
        assert(old(out)@.push((48 + n) as char) =~= old(out)@ + seq![(48 + n) as char]);
        out.push((48u8 + n as u8) as char);
    } else {
        push_decimal(out, n / 10);
        let digit: u8 = (n % 10) as u8;
        assert(old(out)@ + decimal((n / 10) as nat).push((48 + n % 10) as char) =~= (old(out)@
            + decimal((n / 10) as nat)).push((48 + n % 10) as char));
        out.push((48u8 + digit) as char);
    }
}

/// `n` in decimal.
pub fn decimal_text(n: u64) -> (text: String)
    ensures
        text@ == decimal(n as nat),
{
    let mut text = String::new();
    push_decimal(&mut text, n);
    assert(Seq::<char>::empty() + decimal(n as nat) =~= decimal(n as nat));
    text
}

/// The last `width` hexadecimal digits of `n`, in lower case.
pub open spec fn hexadecimal(n: nat, width: nat) -> Seq<char>
    decreases width,
{
    if width == 0 {
        Seq::empty()
    } else {
        let digit = n % 16;
        hexadecimal(n / 16, (width - 1) as nat).push(
            if digit < 10 {
                (48 + digit) as char
            } else {
                (87 + digit) as char
            },
        )
    }
}

/// Appends the last `width` hexadecimal digits of `n`.
fn push_hexadecimal(out: &mut String, n: u128, width: u8)
    ensures
        final(out)@ == old(out)@ + hexadecimal(n as nat, width as nat),
    decreases width,
{
    if width > 0 {
        push_hexadecimal(out, n / 16, width - 1);
        let digit: u8 = (n % 16) as u8;
        let c: char = if digit < 10 {
            (48u8 + digit) as char
        } else {
            (87u8 + digit) as char
        };
        assert(old(out)@ + hexadecimal((n / 16) as nat, (width - 1) as nat).push(c) =~= (old(out)@
            + hexadecimal((n / 16) as nat, (width - 1) as nat)).push(c));
        out.push(c);
    } else {
        assert(old(out)@ + Seq::<char>::empty() =~= old(out)@);
    }
}

/// All thirty-two hexadecimal digits of `n`, in lower case.
pub fn hexadecimal_text(n: u128) -> (text: String)
    ensures
        text@ == hexadecimal(n as nat, 32),
{
    let mut text = String::new();
    push_hexadecimal(&mut text, n, 32);
    assert(Seq::<char>::empty() + hexadecimal(n as nat, 32) =~= hexadecimal(n as nat, 32));
    text
}

// ---------------------------------------------------------------------------
// Letter case
// ---------------------------------------------------------------------------

/// An ASCII capital as the small letter, any other character as it is.
pub open spec fn ascii_lower(c: char) -> char {
    if 'A' <= c <= 'Z' {
        (c as u32 + 32) as char
    } else {
        c
    }
}

/// Whether two texts are the same but for the case of ASCII letters.
pub open spec fn same_ignoring_case(a: Seq<char>, b: Seq<char>) -> bool {
    &&& a.len() == b.len()
    &&& forall|i: int| 0 <= i < a.len() ==> ascii_lower(#[trigger] a[i]) == ascii_lower(b[i])
}

/// An ASCII capital as the small letter, any other character as it is.
fn lower_char(c: char) -> (lower: char)
    ensures
        lower == ascii_lower(c),
{
    if 'A' <= c && c <= 'Z' {
        let code: u8 = c as u8;
        (code + 32u8) as char
    } else {
        c
    }
}

/// Compares two texts without regard to the case of ASCII letters.
pub fn equal_ignoring_case(a: &str, b: &str) -> (same: bool)
    ensures
        same == same_ignoring_case(a@, b@),
{
    let left = chars_of(a);
    let right = chars_of(b);
    if left.len() != right.len() {
        return false;
    }
    let mut i: usize = 0;
    while i < left.len()
        invariant
            i <= left@.len(),
            left@.len() == right@.len(),
            left@ == a@,
            right@ == b@,
            forall|k: int| 0 <= k < i ==> ascii_lower(#[trigger] a@[k]) == ascii_lower(b@[k]),
        decreases left@.len() - i,
    {
        if lower_char(left[i]) != lower_char(right[i]) {
            assert(ascii_lower(a@[i as int]) != ascii_lower(b@[i as int]));
            return false;
        }
        i = i + 1;
    }
    true
}

/// Whether some text of a list has this lower case form.
pub open spec fn lists_lowercase(list: Seq<Seq<char>>, lower: Seq<char>) -> bool {
    exists|i: int| 0 <= i < list.len() && lowercase(#[trigger] list[i]) == lower
}

/// Whether some entry of `list` has the lower case form `lower`.
pub fn contains_lowercase(list: &Vec<String>, lower: &str) -> (found: bool)
    ensures
        found == lists_lowercase(texts(list@), lower@),
{
    let ghost all = texts(list@);
    let mut i: usize = 0;
    while i < list.len()
        invariant
            i <= list@.len(),
            all == texts(list@),
            forall|k: int| 0 <= k < i ==> lowercase(#[trigger] all[k]) != lower@,
        decreases list@.len() - i,
    {
        let own = list[i].as_str().to_lowercase();
        assert(all[i as int] == list@[i as int]@);
        if same_text(own.as_str(), lower) {
            assert(lowercase(all[i as int]) == lower@);
            return true;
        }
        i = i + 1;
    }
    false
}

} // verus!
