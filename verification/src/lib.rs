//! Boyer-Moore byte search: find the first occurrence of a pattern inside a
//! text buffer and return the full line that contains it.

use vstd::prelude::*;

mod guide;
pub mod specs;

verus! {

broadcast use vstd::slice::axiom_spec_len;

/// Whether `c` terminates a line.
fn is_newline(c: u8) -> (r: bool)
    ensures
        r == specs::is_line_break(c),
{
    let newline_ordinal: u8 = 10;
    let carriage_return_ordinal: u8 = 13;
    c == newline_ordinal || c == carriage_return_ordinal
}

/// Expand the matched byte range `[start, start + len)` to its enclosing
/// line: scan right to the next terminator or the buffer's end, and left to
/// the previous terminator or the buffer's start, excluding the terminators.
fn line_of<'a>(text: &'a [u8], start: usize, len: usize) -> (line: &'a [u8])
    requires
        start + len <= text@.len(),
    ensures
        line@ == text@.subrange(
            specs::line_start_of(text@, start as int),
            specs::line_end_of(text@, start as int + len as int),
        ),
{
    let text_len: usize = text.len();
    let mut line_start: usize = start;
    let mut line_end: usize = start + len;

    while line_end < text_len && !is_newline(text[line_end])
        invariant
            text_len == text@.len(),
            start + len <= line_end <= text@.len(),
            specs::line_end_of(text@, start as int + len as int)
                == specs::line_end_of(text@, line_end as int),
        decreases text@.len() - line_end,
    {
        line_end = line_end + 1;
    }

    while line_start > 0 && !is_newline(text[line_start - 1])
        invariant
            line_start <= start,
            start <= text@.len(),
            specs::line_start_of(text@, start as int)
                == specs::line_start_of(text@, line_start as int),
        decreases line_start,
    {
        line_start = line_start - 1;
    }

    vstd::slice::slice_subrange(text, line_start, line_end)
}

/// Find the first occurrence of `pattern` in `text` and return the full line
/// containing it, or nothing when the pattern never occurs.
///
/// The result is `specs::search_result(text@, pattern@)`, a function of the
/// two buffers alone: repeated calls with the same arguments return the same
/// line, the returned line is the one around the leftmost occurrence, and a
/// line comes back if and only if the pattern occurs. The pattern must not
/// be empty; an empty pattern is the caller's error.
pub fn search<'a>(text: &'a [u8], pattern: &[u8]) -> (found: Option<&'a [u8]>)
    requires
        pattern@.len() >= 1,
    ensures
        (match found {
            Some(line) => Some(line@),
            None => None::<Seq<u8>>,
        }) == specs::search_result(text@, pattern@),
        found is Some <==> specs::has_match(text@, pattern@),
{
    let m = pattern.len();
    if m > text.len() {
        proof {
            if specs::has_match(text@, pattern@) {
                let o = choose|o: int| specs::occurs_at(text@, pattern@, o);
                assert(specs::occurs_at(text@, pattern@, o));
                assert(false);
            }
        }
        return None;
    }
    let guide = guide::Guide::from(pattern);
    let mut frame: usize = m - 1;

    // Iterate over all the matching frames. The frame only ever moves right
    // along the searched text, so no alignment is examined twice.
    while frame < text.len()
        invariant
            m == pattern@.len(),
            1 <= m <= text@.len(),
            m - 1 <= frame <= text@.len(),
            guide.wf(pattern@),
            forall|o: int|
                0 <= o && o + m <= frame ==> !specs::occurs_at(text@, pattern@, o),
        decreases text@.len() - frame,
    {
        // Compare the pattern to the text in the matching frame starting at
        // the last byte in the frame and iterating backward.
        let mut j: usize = m;
        while j > 0 && text[frame - (m - j)] == pattern[j - 1]
            invariant
                m == pattern@.len(),
                1 <= m,
                m - 1 <= frame < text@.len(),
                j <= m,
                forall|k: int|
                    j <= k < m ==> text@[frame - m + 1 + k] == #[trigger] pattern@[k],
            decreases j,
        {
            j = j - 1;
        }

        let base = frame + 1 - m;
        if j == 0 {
            // The entire matching frame matched, and every earlier frame was
            // ruled out, so this occurrence is the leftmost.
            proof {
                assert(specs::occurs_at(text@, pattern@, base as int));
                assert forall|q: int| 0 <= q < base implies !specs::occurs_at(
                    text@,
                    pattern@,
                    q,
                ) by {
                    assert(q + m <= frame);
                }
                assert(specs::is_first_match(text@, pattern@, base as int));
                specs::lemma_search_leftmost(text@, pattern@, base as int);
            }
            return Some(line_of(text, base, m));
        }

        // Mismatch at pattern index j - 1: move the frame as far as the
        // larger of the two table skips allows, measured from the comparison
        // index, and at least one step.
        let v = text[frame - (m - j)];
        let s = guide.skip(v, j - 1);
        let mj = m - j;
        let adv = if s > mj {
            s - mj
        } else {
            1
        };
        let rem = text.len() - frame;
        let step = if adv < rem {
            adv
        } else {
            rem
        };
        proof {
            assert forall|t: int| 0 <= t < step implies !#[trigger] specs::occurs_at(
                text@,
                pattern@,
                base + t,
            ) by {
                if t == 0 {
                    if specs::occurs_at(text@, pattern@, base as int) {
                        assert(text@[base + (j - 1)] == pattern@[j - 1]);
                    }
                } else {
                    guide::lemma_skip_excludes(
                        text@,
                        pattern@,
                        guide.mismatch_skip@,
                        guide.matched_suffix_skip@,
                        base as int,
                        j as int,
                        t,
                    );
                }
            }
            assert forall|o: int| 0 <= o && o + m <= frame + step implies !specs::occurs_at(
                text@,
                pattern@,
                o,
            ) by {
                if o + m > frame {
                    assert(0 <= o - base < step);
                    assert(!specs::occurs_at(text@, pattern@, base + (o - base)));
                }
            }
        }
        frame = frame + step;
    }

    proof {
        if specs::has_match(text@, pattern@) {
            let o = choose|o: int| specs::occurs_at(text@, pattern@, o);
            assert(specs::occurs_at(text@, pattern@, o));
            assert(o + m <= frame);
            assert(false);
        }
    }
    None
}

} // verus!
