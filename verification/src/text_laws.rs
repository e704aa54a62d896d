//! What holds of every text that is joined, split, trimmed or written as a number.
use crate::text::{
    decimal, first_char, first_from, hexadecimal, joined, lemma_first_char, lemma_first_from,
    replaced, split_on, stands_at, trimmed, trimmed_end, trimmed_start, white, without_trailing,
};
use vstd::prelude::*;

verus! {

// ---------------------------------------------------------------------------
// Parts
// ---------------------------------------------------------------------------

/// Texts that are joined stand in their order with the separator between each two
/// of them: one text is itself, and two lists of texts are joined by joining each
/// and putting the separator between.
pub proof fn law_joined(a: Seq<Seq<char>>, b: Seq<Seq<char>>, text: Seq<char>, separator: Seq<char>)
    ensures
        joined(Seq::empty().push(text), separator) == text,
        a.len() > 0 && b.len() > 0 ==> joined(a + b, separator) == joined(a, separator) + separator
            + joined(b, separator),
    decreases b.len(),
{
    if a.len() > 0 && b.len() > 0 {
        let all = a + b;
        assert(all.drop_last() =~= a + b.drop_last());
        assert(all.last() == b.last());
        if b.len() == 1 {
            assert(a + b.drop_last() =~= a);
        } else {
            law_joined(a, b.drop_last(), text, separator);
            assert(joined(all, separator) =~= joined(a, separator) + separator + joined(
                b,
                separator,
            ));
        }
    }
}

/// What is split is put together again by joining, and no piece holds the
/// character that it was split at.
pub proof fn law_split_is_undone(text: Seq<char>, c: char)
    ensures
        joined(split_on(text, c), Seq::empty().push(c)) == text,
        forall|k: int|
            0 <= k < split_on(text, c).len() ==> !(#[trigger] split_on(text, c)[k]).contains(c),
    decreases text.len(),
{
    let one = Seq::empty().push(c);
    crate::text::lemma_split_on(text, c);
    lemma_first_char(text, c);
    let at = first_char(text, c);
    if at < text.len() {
        let rest = text.skip(at + 1);
        law_split_is_undone(rest, c);
        crate::text::lemma_split_on(rest, c);
        let first = Seq::empty().push(text.take(at));
        assert(split_on(text, c) =~= first + split_on(rest, c));
        law_joined(first, split_on(rest, c), text.take(at), one);
        assert(text =~= text.take(at) + one + rest);
    } else {
        assert(split_on(text, c) =~= Seq::empty().push(text));
    }
}

/// The first copy of a part is replaced, and then those behind it; a text without a
/// copy stays as it is.
pub proof fn law_replaced(text: Seq<char>, part: Seq<char>, with: Seq<char>)
    requires
        part.len() > 0,
    ensures
        match first_from(text, part, 0) {
            Some(at) => replaced(text, part, with) == text.take(at) + with + replaced(
                text.skip(at + part.len()),
                part,
                with,
            ),
            None => replaced(text, part, with) == text,
        },
    decreases text.len(),
{
    lemma_first_from(text, part, 0);
    if text.len() >= part.len() {
        let front = text.take(part.len() as int);
        assert(text.subrange(0, part.len() as int) =~= front);
        if front == part {
            assert(stands_at(text, part, 0));
            assert(text.take(0) + with =~= with);
        } else {
            assert(!stands_at(text, part, 0));
            let rest = text.drop_first();
            law_replaced(rest, part, with);
            lemma_first_from(rest, part, 0);
            assert forall|k: int| 0 <= k implies #[trigger] stands_at(rest, part, k) == stands_at(
                text,
                part,
                k + 1,
            ) by {
                if k + part.len() <= rest.len() {
                    assert(rest.subrange(k, k + part.len()) =~= text.subrange(
                        k + 1,
                        k + 1 + part.len(),
                    ));
                }
            }
            match first_from(rest, part, 0) {
                Some(at) => {
                    assert(stands_at(text, part, at + 1));
                    let found = first_from(text, part, 0)->0;
                    if found < at + 1 {
                        assert(stands_at(rest, part, found - 1) == stands_at(text, part, found));
                    }
                    assert(found == at + 1);
                    assert(rest.skip(at + part.len()) =~= text.skip(at + 1 + part.len()));
                    assert(seq![text[0]] + (rest.take(at) + with + replaced(
                        rest.skip(at + part.len()),
                        part,
                        with,
                    )) =~= text.take(at + 1) + with + replaced(
                        rest.skip(at + part.len()),
                        part,
                        with,
                    ));
                },
                None => {
                    match first_from(text, part, 0) {
                        Some(found) => {
                            assert(stands_at(rest, part, found - 1) == stands_at(text, part, found));
                        },
                        None => {},
                    }
                    assert(seq![text[0]] + rest =~= text);
                },
            }
        }
    }
}

// ---------------------------------------------------------------------------
// Ends
// ---------------------------------------------------------------------------

/// What is trimmed at the start is a rest of the text, and nothing but white space
/// stood before it.
proof fn lemma_trimmed_start(text: Seq<char>)
    ensures
        ({
            let cut = text.len() - trimmed_start(text).len();
            &&& 0 <= cut
            &&& trimmed_start(text) == text.skip(cut)
            &&& forall|k: int| 0 <= k < cut ==> white(#[trigger] text[k])
            &&& trimmed_start(text).len() > 0 ==> !white(trimmed_start(text)[0])
        }),
    decreases text.len(),
{
    if text.len() > 0 && white(text[0]) {
        let rest = text.drop_first();
        lemma_trimmed_start(rest);
        let cut = text.len() - trimmed_start(text).len();
        assert(rest.skip(cut - 1) =~= text.skip(cut));
        assert forall|k: int| 0 <= k < cut implies white(#[trigger] text[k]) by {
            if k > 0 {
                assert(rest[k - 1] == text[k]);
            }
        }
    } else {
        assert(text.skip(0) =~= text);
    }
}

/// What is trimmed at the end is a front of the text, and nothing but white space
/// stood behind it.
proof fn lemma_trimmed_end(text: Seq<char>)
    ensures
        ({
            let left = trimmed_end(text).len() as int;
            &&& left <= text.len()
            &&& trimmed_end(text) == text.take(left)
            &&& forall|k: int| left <= k < text.len() ==> white(#[trigger] text[k])
            &&& left > 0 ==> !white(text[left - 1])
        }),
    decreases text.len(),
{
    if text.len() > 0 && white(text.last()) {
        let rest = text.drop_last();
        lemma_trimmed_end(rest);
        let left = trimmed_end(text).len() as int;
        assert(rest.take(left) =~= text.take(left));
        assert forall|k: int| left <= k < text.len() implies white(#[trigger] text[k]) by {
            if k < rest.len() {
                assert(rest[k] == text[k]);
            }
        }
    } else {
        assert(text.take(text.len() as int) =~= text);
    }
}

/// A text that is trimmed is a part of the text; only white space stood around it,
/// and it neither starts nor ends with any.
pub proof fn law_trimmed(text: Seq<char>) -> (from: int)
    ensures
        ({
            let out = trimmed(text);
            let to = from + out.len();
            &&& 0 <= from && to <= text.len()
            &&& out == text.subrange(from, to)
            &&& forall|k: int| 0 <= k < from || to <= k < text.len() ==> white(#[trigger] text[k])
            &&& out.len() > 0 ==> !white(out[0]) && !white(out.last())
        }),
{
    let front = trimmed_start(text);
    lemma_trimmed_start(text);
    lemma_trimmed_end(front);
    let from = text.len() - front.len();
    let out = trimmed(text);
    assert(out =~= text.subrange(from, from + out.len()));
    assert forall|k: int| 0 <= k < from || from + out.len() <= k < text.len() implies white(
        #[trigger] text[k],
    ) by {
        if k >= from {
            assert(front[k - from] == text[k]);
        }
    }
    if out.len() > 0 {
        assert(out[0] == front[0]);
        assert(out.last() == front[out.len() - 1]);
    }
    from
}

/// A text without copies of a character at its end is a front of the text; only
/// copies stood behind it, and it does not end with one.
pub proof fn law_without_trailing(text: Seq<char>, c: char)
    ensures
        ({
            let left = without_trailing(text, c).len() as int;
            &&& left <= text.len()
            &&& without_trailing(text, c) == text.take(left)
            &&& forall|k: int| left <= k < text.len() ==> #[trigger] text[k] == c
            &&& left > 0 ==> text[left - 1] != c
        }),
    decreases text.len(),
{
    if text.len() > 0 && text.last() == c {
        let rest = text.drop_last();
        law_without_trailing(rest, c);
        let left = without_trailing(text, c).len() as int;
        assert(rest.take(left) =~= text.take(left));
        assert forall|k: int| left <= k < text.len() implies #[trigger] text[k] == c by {
            if k < rest.len() {
                assert(rest[k] == text[k]);
            }
        }
    } else {
        assert(text.take(text.len() as int) =~= text);
    }
}

// ---------------------------------------------------------------------------
// Numbers
// ---------------------------------------------------------------------------

/// The number that a decimal digit stands for.
pub open spec fn digit_value(c: char) -> int {
    c as int - '0' as int
}

/// The number that decimal digits stand for.
pub open spec fn decimal_value(text: Seq<char>) -> int
    decreases text.len(),
{
    if text.len() == 0 {
        0
    } else {
        10 * decimal_value(text.drop_last()) + digit_value(text.last())
    }
}

/// A number that is written in decimal is read back, from digits alone, without a
/// zero before it.
pub proof fn law_decimal_reads_back(n: nat)
    ensures
        decimal_value(decimal(n)) == n,
        decimal(n).len() > 0,
        forall|k: int| 0 <= k < decimal(n).len() ==> '0' <= (#[trigger] decimal(n)[k]) <= '9',
        n > 0 ==> decimal(n)[0] != '0',
    decreases n,
{
    if n < 10 {
        let one = decimal(n);
        assert(one.drop_last() =~= Seq::empty());
        assert(decimal_value(Seq::empty()) == 0);
        assert(48 <= (48 + n) < 58);
    } else {
        law_decimal_reads_back(n / 10);
        let front = decimal(n / 10);
        let all = decimal(n);
        assert(all.drop_last() =~= front);
        assert(48 <= (48 + n % 10) < 58);
        assert forall|k: int| 0 <= k < all.len() implies '0' <= (#[trigger] all[k]) <= '9' by {
            if k < front.len() {
                assert(all[k] == front[k]);
            }
        }
        assert(all[0] == front[0]);
    }
}

/// The number that a lower case hexadecimal digit stands for.
pub open spec fn hex_digit_value(c: char) -> int {
    if c <= '9' {
        c as int - '0' as int
    } else {
        c as int - 'a' as int + 10
    }
}

/// The number that hexadecimal digits stand for.
pub open spec fn hex_value(text: Seq<char>) -> int
    decreases text.len(),
{
    if text.len() == 0 {
        0
    } else {
        16 * hex_value(text.drop_last()) + hex_digit_value(text.last())
    }
}

/// Sixteen to the power of a number.
pub open spec fn power16(width: nat) -> int
    decreases width,
{
    if width == 0 {
        1
    } else {
        16 * power16((width - 1) as nat)
    }
}

/// A number that is written with so many hexadecimal digits has so many, and is
/// read back where they suffice.
pub proof fn law_hexadecimal_reads_back(n: nat, width: nat)
    ensures
        hexadecimal(n, width).len() == width,
        forall|k: int|
            0 <= k < width ==> '0' <= (#[trigger] hexadecimal(n, width)[k]) <= '9' || 'a'
                <= hexadecimal(n, width)[k] <= 'f',
        n < power16(width) ==> hex_value(hexadecimal(n, width)) == n,
    decreases width,
{
    if width > 0 {
        let fewer = (width - 1) as nat;
        law_hexadecimal_reads_back(n / 16, fewer);
        let front = hexadecimal(n / 16, fewer);
        let all = hexadecimal(n, width);
        let digit = n % 16;
        assert(all.drop_last() =~= front);
        assert(0 <= digit < 16);
        assert(hex_digit_value(all.last()) == digit);
        assert forall|k: int| 0 <= k < width implies '0' <= (#[trigger] all[k]) <= '9' || 'a'
            <= all[k] <= 'f' by {
            if k < fewer {
                assert(all[k] == front[k]);
            }
        }
    }
}

} // verus!
