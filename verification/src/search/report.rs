//! Rendering an occurrence with the rest of its line, the occurrence in green.

use ansi_term::Colour;
use vstd::prelude::*;
use crate::search::search::symbols;

verus! {

/// The escape sequence that switches a terminal to green text.
pub open spec fn green_on() -> Seq<char> {
    seq!['\u{1b}', '[', '3', '2', 'm']
}

/// The escape sequence that switches a terminal back to its own colours.
pub open spec fn colour_off() -> Seq<char> {
    seq!['\u{1b}', '[', '0', 'm']
}

/// Where the context before position `from` is cut off: the nearest position
/// at or before `from` that holds a line break, or the start of the text.
pub open spec fn context_start(chars: Seq<char>, from: int) -> int
    decreases from,
{
    if from <= 0 || chars[from] == '\n' {
        from
    } else {
        context_start(chars, from - 1)
    }
}

/// Where the context after position `from` is cut off: the nearest position
/// at or after `from` that holds a line break, or the last position of the
/// text.
pub open spec fn context_end(chars: Seq<char>, from: int) -> int
    decreases chars.len() - from,
{
    if from >= chars.len() - 1 || chars[from] == '\n' {
        from
    } else {
        context_end(chars, from + 1)
    }
}

/// An occurrence as it is shown: the text between the cut before it and the
/// occurrence, then the pattern in green, then the text up to the cut after
/// it. The two positions of the cuts are not shown.
pub open spec fn rendering(result: int, pattern: Seq<char>, chars: Seq<char>) -> Seq<char> {
    chars.subrange(context_start(chars, result) + 1, result) + green_on() + pattern + colour_off()
        + chars.subrange(result + pattern.len(), context_end(chars, result))
}

/// Calls `ansi_term::Colour::Green.paint` on the text and writes the painted
/// string out. The crate writes the style's prefix, the text and the style's
/// suffix: for plain green these are the code for a green foreground and the
/// code that resets all styles.
#[verifier::external_body]
fn paint_green(text: &str) -> (painted: String)
    ensures
        painted@ == green_on() + text@ + colour_off(),
{
    Colour::Green.paint(text).to_string()
}

/// Finds where the context before position `result` is cut off.
pub fn line_start(chars: &Vec<char>, result: usize) -> (start: usize)
    requires
        result < chars.len(),
    ensures
        start == context_start(chars@, result as int),
        start <= result,
{
    let mut min_offset = result;
    while min_offset != 0 && chars[min_offset] != '\n'
        invariant
            min_offset <= result < chars.len(),
            context_start(chars@, result as int) == context_start(chars@, min_offset as int),
        decreases min_offset,
    {
        min_offset -= 1;
    }
    min_offset
}

/// Finds where the context after position `result` is cut off.
pub fn line_end(chars: &Vec<char>, result: usize) -> (end: usize)
    requires
        result < chars.len(),
    ensures
        end == context_end(chars@, result as int),
        result <= end < chars.len(),
{
    let mut max_offset = result;
    while max_offset != chars.len() - 1 && chars[max_offset] != '\n'
        invariant
            result <= max_offset < chars.len(),
            context_end(chars@, result as int) == context_end(chars@, max_offset as int),
        decreases chars.len() - max_offset,
    {
        max_offset += 1;
    }
    max_offset
}

/// Renders the occurrence of `pattern` at offset `result` of `chars` with
/// the rest of its line around it and the pattern itself in green.
pub fn render_result(result: usize, pattern: &str, chars: &Vec<char>) -> (rendered: Vec<char>)
    requires
        result < chars.len(),
        context_start(chars@, result as int) < result,
        result + pattern@.len() <= context_end(chars@, result as int),
    ensures
        rendered@ == rendering(result as int, pattern@, chars@),
{
    let min_offset = line_start(chars, result);
    let max_offset = line_end(chars, result);
    let painted = paint_green(pattern);
    let middle = symbols(painted.as_str());
    let width = symbols(pattern).len();

    let mut rendered: Vec<char> = Vec::new();
    let mut i = min_offset + 1;
    while i < result
        invariant
            min_offset + 1 <= i <= result < chars.len(),
            rendered@ == chars@.subrange(min_offset + 1, i as int),
        decreases result - i,
    {
        rendered.push(chars[i]);
        i += 1;
        proof {
            assert(rendered@ =~= chars@.subrange(min_offset + 1, i as int));
        }
    }
    let mut j: usize = 0;
    while j < middle.len()
        invariant
            j <= middle.len(),
            rendered@ == chars@.subrange(min_offset + 1, result as int) + middle@.subrange(
                0,
                j as int,
            ),
        decreases middle.len() - j,
    {
        rendered.push(middle[j]);
        j += 1;
        proof {
            assert(rendered@ =~= chars@.subrange(min_offset + 1, result as int) + middle@.subrange(
                0,
                j as int,
            ));
        }
    }
    let mut k = result + width;
    proof {
        assert(middle@.subrange(0, middle.len() as int) =~= middle@);
    }
    while k < max_offset
        invariant
            result + width <= k <= max_offset < chars.len(),
            rendered@ == chars@.subrange(min_offset + 1, result as int) + middle@ + chars@.subrange(
                result + width,
                k as int,
            ),
        decreases max_offset - k,
    {
        rendered.push(chars[k]);
        k += 1;
        proof {
            assert(rendered@ =~= chars@.subrange(min_offset + 1, result as int) + middle@
                + chars@.subrange(result + width, k as int));
        }
    }
    proof {
        assert(rendered@ =~= rendering(result as int, pattern@, chars@));
    }
    rendered
}

} // verus!
