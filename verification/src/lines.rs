//! Texts made of whole lines, and what it means for a text to hold a line.
//!
//! A witness or a fixture is read by name: each `name = value` line stands on
//! its own, and what matters is that the line naming an input carries that
//! input. These definitions let that be said of a text without saying where
//! in it the line sits.
use vstd::prelude::*;

verus! {

/// Empty, or ending in a line break: a run of whole lines.
pub open spec fn whole_lines(s: Seq<char>) -> bool {
    s.len() == 0 || s.last() == '\n'
}

/// `line` stands in `text` at the start of a line: at the very start, or
/// right after a line break.
pub open spec fn has_line(text: Seq<char>, line: Seq<char>) -> bool {
    exists|i: int|
        0 <= i && i + line.len() <= text.len() && (i == 0 || text[i - 1] == '\n')
            && #[trigger] text.subrange(i, i + line.len()) == line
}

/// A line stands in itself.
pub broadcast proof fn lemma_has_line_self(line: Seq<char>)
    ensures
        #[trigger] has_line(line, line),
{
    let i: int = 0;
    assert(line.subrange(i, i + line.len()) =~= line);
}

/// A line a text holds, it still holds with more after it; and a line that
/// more text holds at its start of a line, the two together hold, when the
/// first ends with whole lines.
pub broadcast proof fn lemma_has_line_append(text: Seq<char>, more: Seq<char>, line: Seq<char>)
    ensures
        (has_line(text, line) || (whole_lines(text) && has_line(more, line))) ==> #[trigger] has_line(
            text + more,
            line,
        ),
{
    let t = text + more;
    if has_line(text, line) {
        let i = choose|i: int|
            0 <= i && i + line.len() <= text.len() && (i == 0 || text[i - 1] == '\n')
                && #[trigger] text.subrange(i, i + line.len()) == line;
        assert(t.subrange(i, i + line.len()) =~= text.subrange(i, i + line.len()));
        if i > 0 {
            assert(t[i - 1] == text[i - 1]);
        }
    } else if whole_lines(text) && has_line(more, line) {
        let j = choose|j: int|
            0 <= j && j + line.len() <= more.len() && (j == 0 || more[j - 1] == '\n')
                && #[trigger] more.subrange(j, j + line.len()) == line;
        let i = text.len() + j;
        assert(t.subrange(i, i + line.len()) =~= more.subrange(j, j + line.len()));
        if i > 0 {
            if j > 0 {
                assert(t[i - 1] == more[j - 1]);
            } else {
                assert(t[i - 1] == text[text.len() - 1]);
            }
        }
    }
}

/// Whole lines, or anything, followed by a last non-empty run of whole
/// lines, end with whole lines.
pub broadcast proof fn lemma_whole_append(text: Seq<char>, more: Seq<char>)
    ensures
        ((whole_lines(text) || more.len() > 0) && whole_lines(more)) ==> #[trigger] whole_lines(
            text + more,
        ),
{
    if more.len() > 0 {
        assert((text + more)[(text + more).len() - 1] == more[more.len() - 1]);
    }
}

/// Runs of lines laid end to end.
pub open spec fn blocks_text(blocks: Seq<Seq<char>>) -> Seq<char>
    decreases blocks.len(),
{
    if blocks.len() == 0 {
        seq![]
    } else {
        blocks_text(blocks.drop_last()) + blocks.last()
    }
}

/// Runs of whole lines laid end to end are whole lines.
pub proof fn lemma_blocks_whole(blocks: Seq<Seq<char>>)
    requires
        forall|k: int| 0 <= k < blocks.len() ==> #[trigger] whole_lines(blocks[k]),
    ensures
        whole_lines(blocks_text(blocks)),
    decreases blocks.len(),
{
    if blocks.len() > 0 {
        let d = blocks.drop_last();
        assert forall|k: int| 0 <= k < d.len() implies #[trigger] whole_lines(d[k]) by {
            assert(d[k] == blocks[k]);
        }
        lemma_blocks_whole(d);
        assert(whole_lines(blocks[blocks.len() - 1]));
    }
}

/// Every run of whole lines among `blocks` stands at the start of a line in
/// the text they make.
pub proof fn lemma_has_block(blocks: Seq<Seq<char>>, k: int)
    requires
        forall|j: int| 0 <= j < blocks.len() ==> #[trigger] whole_lines(blocks[j]),
        0 <= k < blocks.len(),
    ensures
        has_line(blocks_text(blocks), blocks[k]),
    decreases blocks.len(),
{
    let d = blocks.drop_last();
    let p = blocks_text(d);
    let t = blocks_text(blocks);
    let line = blocks[k];
    assert forall|j: int| 0 <= j < d.len() implies #[trigger] whole_lines(d[j]) by {
        assert(d[j] == blocks[j]);
    }
    assert(t == p + blocks.last());
    if k == blocks.len() - 1 {
        lemma_blocks_whole(d);
        let i = p.len() as int;
        assert(t.subrange(i, i + line.len()) =~= line);
        if i > 0 {
            assert(t[i - 1] == p[i - 1]);
        }
    } else {
        lemma_has_block(d, k);
        assert(d[k] == line);
        let i = choose|i: int|
            0 <= i && i + line.len() <= p.len() && (i == 0 || p[i - 1] == '\n')
                && #[trigger] p.subrange(i, i + line.len()) == line;
        assert(t.subrange(i, i + line.len()) =~= p.subrange(i, i + line.len()));
        if i > 0 {
            assert(t[i - 1] == p[i - 1]);
        }
    }
}

/// One more run of lines at the end of the text.
pub proof fn lemma_blocks_push(blocks: Seq<Seq<char>>, b: Seq<char>)
    ensures
        blocks_text(blocks.push(b)) == blocks_text(blocks) + b,
{
    assert(blocks.push(b).drop_last() =~= blocks);
}

} // verus!
