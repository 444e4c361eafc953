use vstd::prelude::*;

verus! {

/// Characters per display line.
pub const DISPLAY_WIDTH: usize = 16;

/// Where the text starts at step `k` of a scroll cycle over `space` free
/// cells: right from 0 up to `space`, then back down to 1.
pub open spec fn scroll_offset(space: int, k: int) -> int {
    if k < space { k } else { 2 * space - k }
}

/// `n` blanks.
pub open spec fn blanks(n: int) -> Seq<char> {
    Seq::new(n as nat, |i: int| ' ')
}

/// The line showing `text` at step `k` of its scroll cycle.
pub open spec fn scroll_frame(text: Seq<char>, k: int) -> Seq<char> {
    let space = DISPLAY_WIDTH - text.len();
    let left = scroll_offset(space, k);
    blanks(left) + text + blanks(space - left)
}

/// The line at step `step` of `text` scrolling back and forth across the
/// display; a cycle has twice as many steps as free cells.
pub fn moving_text_frame(text: &Vec<char>, step: usize) -> (line: Vec<char>)
    requires
        text@.len() < DISPLAY_WIDTH,
    ensures
        line@ == scroll_frame(text@, step as int % (2 * (DISPLAY_WIDTH - text@.len()))),
        line@.len() == DISPLAY_WIDTH,
{
    let space = DISPLAY_WIDTH - text.len();
    let k = step % (2 * space);
    let left = if k < space { k } else { 2 * space - k };
    let right = space - left;
    let mut line: Vec<char> = Vec::new();
    let mut i: usize = 0;
    while i < left
        invariant
            i <= left,
            line@ == blanks(i as int),
        decreases left - i,
    {
        line.push(' ');
        i += 1;
        proof {
            assert(line@ =~= blanks(i as int));
        }
    }
    let mut j: usize = 0;
    while j < text.len()
        invariant
            j <= text@.len(),
            line@ == blanks(left as int) + text@.take(j as int),
        decreases text@.len() - j,
    {
        line.push(text[j]);
        j += 1;
        proof {
            assert(line@ =~= blanks(left as int) + text@.take(j as int));
        }
    }
    let mut i: usize = 0;
    while i < right
        invariant
            i <= right,
            line@ == blanks(left as int) + text@ + blanks(i as int),
        decreases right - i,
    {
        line.push(' ');
        i += 1;
        proof {
            assert(line@ =~= blanks(left as int) + text@ + blanks(i as int));
        }
    }
    proof {
        assert(text@.take(text@.len() as int) =~= text@);
    }
    line
}

} // verus!
