//! The mathematical model of the search: where a pattern occurs in a text,
//! which occurrence is leftmost, and how a byte position extends to the
//! enclosing line.

use vstd::prelude::*;

verus! {

/// A line terminator byte: ASCII line feed or carriage return.
pub open spec fn is_line_break(c: u8) -> bool {
    c == 10 || c == 13
}

/// The pattern occurs in the text as a contiguous run starting at offset `o`.
pub open spec fn occurs_at(text: Seq<u8>, pattern: Seq<u8>, o: int) -> bool {
    &&& 0 <= o
    &&& o + pattern.len() <= text.len()
    &&& forall|k: int| 0 <= k < pattern.len() ==> text[o + k] == pattern[k]
}

/// The pattern occurs somewhere in the text.
pub open spec fn has_match(text: Seq<u8>, pattern: Seq<u8>) -> bool {
    exists|o: int| occurs_at(text, pattern, o)
}

/// `o` is the leftmost offset at which the pattern occurs.
pub open spec fn is_first_match(text: Seq<u8>, pattern: Seq<u8>, o: int) -> bool {
    &&& occurs_at(text, pattern, o)
    &&& forall|q: int| 0 <= q < o ==> !occurs_at(text, pattern, q)
}

/// The leftmost offset at which the pattern occurs, where one exists.
pub open spec fn first_match_index(text: Seq<u8>, pattern: Seq<u8>) -> int {
    choose|o: int| is_first_match(text, pattern, o)
}

/// Start of the line containing position `i`: the nearest index at or left of
/// `i` that is 0 or sits just right of a line terminator.
pub open spec fn line_start_of(text: Seq<u8>, i: int) -> int
    decreases i,
{
    if i <= 0 {
        0
    } else if is_line_break(text[i - 1]) {
        i
    } else {
        line_start_of(text, i - 1)
    }
}

/// End of the line containing position `i` (exclusive): the nearest index at
/// or right of `i` that holds a line terminator, or the text's length.
pub open spec fn line_end_of(text: Seq<u8>, i: int) -> int
    decreases text.len() - i,
{
    if i >= text.len() {
        text.len() as int
    } else if is_line_break(text[i]) {
        i
    } else {
        line_end_of(text, i + 1)
    }
}

/// The full line enclosing an occurrence of the pattern at offset `o`,
/// without the terminators on either side.
pub open spec fn match_line(text: Seq<u8>, pattern: Seq<u8>, o: int) -> Seq<u8> {
    text.subrange(line_start_of(text, o), line_end_of(text, o + pattern.len()))
}

/// What a search returns, as a function of its inputs alone: the line around
/// the leftmost occurrence, or nothing.
pub open spec fn search_result(text: Seq<u8>, pattern: Seq<u8>) -> Option<Seq<u8>> {
    if has_match(text, pattern) {
        Some(match_line(text, pattern, first_match_index(text, pattern)))
    } else {
        None
    }
}

/// Two offsets that are both leftmost occurrences are the same offset.
pub proof fn lemma_first_match_unique(text: Seq<u8>, pattern: Seq<u8>, a: int, b: int)
    requires
        is_first_match(text, pattern, a),
        is_first_match(text, pattern, b),
    ensures
        a == b,
{
    if a < b {
        assert(occurs_at(text, pattern, a));
        assert(!occurs_at(text, pattern, a));
    }
    if b < a {
        assert(occurs_at(text, pattern, b));
        assert(!occurs_at(text, pattern, b));
    }
}

/// Wherever the pattern occurs at all, a leftmost occurrence exists.
pub proof fn lemma_first_match_exists(text: Seq<u8>, pattern: Seq<u8>, o: int)
    requires
        occurs_at(text, pattern, o),
    ensures
        exists|f: int| is_first_match(text, pattern, f),
    decreases o,
{
    if forall|q: int| 0 <= q < o ==> !occurs_at(text, pattern, q) {
        assert(is_first_match(text, pattern, o));
    } else {
        let q = choose|q: int| 0 <= q < o && occurs_at(text, pattern, q);
        lemma_first_match_exists(text, pattern, q);
    }
}

/// The line start lies at or left of `i`, just right of a terminator or at 0,
/// with no terminator between it and `i`.
pub proof fn lemma_line_start_bounds(text: Seq<u8>, i: int)
    requires
        0 <= i <= text.len(),
    ensures
        0 <= line_start_of(text, i) <= i,
        line_start_of(text, i) == 0 || is_line_break(text[line_start_of(text, i) - 1]),
        forall|k: int| line_start_of(text, i) <= k < i ==> !is_line_break(#[trigger] text[k]),
    decreases i,
{
    if i <= 0 {
    } else if is_line_break(text[i - 1]) {
    } else {
        lemma_line_start_bounds(text, i - 1);
    }
}

/// The line end lies at or right of `i`, on a terminator or at the text's
/// end, with no terminator between `i` and it.
pub proof fn lemma_line_end_bounds(text: Seq<u8>, i: int)
    requires
        0 <= i <= text.len(),
    ensures
        i <= line_end_of(text, i) <= text.len(),
        line_end_of(text, i) == text.len() || is_line_break(text[line_end_of(text, i)]),
        forall|k: int| i <= k < line_end_of(text, i) ==> !is_line_break(#[trigger] text[k]),
    decreases text.len() - i,
{
    if i >= text.len() {
    } else if is_line_break(text[i]) {
    } else {
        lemma_line_end_bounds(text, i + 1);
    }
}

/// Law: the search reports the line of the leftmost occurrence. If the
/// pattern occurs at `o` and nowhere earlier, the outcome is exactly the
/// line containing `o`.
pub proof fn lemma_search_leftmost(text: Seq<u8>, pattern: Seq<u8>, o: int)
    requires
        is_first_match(text, pattern, o),
    ensures
        search_result(text, pattern) == Some(match_line(text, pattern, o)),
{
    assert(occurs_at(text, pattern, o));
    assert(has_match(text, pattern));
    assert(is_first_match(text, pattern, first_match_index(text, pattern)));
    lemma_first_match_unique(text, pattern, o, first_match_index(text, pattern));
}

/// Law: a line comes back if and only if the pattern occurs as a contiguous
/// byte run somewhere in the text.
pub proof fn lemma_search_iff_occurs(text: Seq<u8>, pattern: Seq<u8>)
    ensures
        search_result(text, pattern) is Some <==> has_match(text, pattern),
{
}

/// Law: a pattern longer than the text never matches.
pub proof fn lemma_longer_pattern_no_match(text: Seq<u8>, pattern: Seq<u8>)
    requires
        pattern.len() > text.len(),
    ensures
        search_result(text, pattern) is None,
{
    if has_match(text, pattern) {
        let o = choose|o: int| occurs_at(text, pattern, o);
        assert(occurs_at(text, pattern, o));
        assert(false);
    }
}

/// Law: a pattern equal to the whole text matches, and the reported line is
/// the whole text.
pub proof fn lemma_whole_text_match(text: Seq<u8>, pattern: Seq<u8>)
    requires
        pattern.len() >= 1,
        pattern == text,
    ensures
        search_result(text, pattern) == Some(text),
{
    assert(occurs_at(text, pattern, 0));
    assert(is_first_match(text, pattern, 0));
    lemma_search_leftmost(text, pattern, 0);
    assert(match_line(text, pattern, 0) =~= text);
}

/// Law: the reported line stops exactly at the line terminators. It reaches
/// from just right of the nearest terminator left of the match (or the
/// text's start) to just left of the nearest terminator right of it (or the
/// text's end), and holds no terminator outside the matched bytes.
pub proof fn lemma_match_line_boundaries(text: Seq<u8>, pattern: Seq<u8>, o: int)
    requires
        occurs_at(text, pattern, o),
    ensures
        ({
            let lo = line_start_of(text, o);
            let hi = line_end_of(text, o + pattern.len());
            &&& 0 <= lo <= o
            &&& o + pattern.len() <= hi <= text.len()
            &&& match_line(text, pattern, o) == text.subrange(lo, hi)
            &&& forall|k: int| lo <= k < o ==> !is_line_break(#[trigger] text[k])
            &&& forall|k: int|
                o + pattern.len() <= k < hi ==> !is_line_break(#[trigger] text[k])
            &&& (lo == 0 || is_line_break(text[lo - 1]))
            &&& (hi == text.len() || is_line_break(text[hi]))
        }),
{
    lemma_line_start_bounds(text, o);
    lemma_line_end_bounds(text, o + pattern.len());
}

} // verus!
