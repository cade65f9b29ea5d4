//! Laying text out: indentation by the `indenter` crate, quoting by the
//! standard library's `Debug` for strings.
//!
//! The two outside computations are named here and nothing is proved of
//! them; the check that makes the call into `indenter` safe is verified.

use crate::error::TwineError;
use crate::error::TwineErrorView;
use indenter::CodeFormatter;
use std::fmt::Write;
use vstd::prelude::*;

verus! {

/// What `indenter::CodeFormatter` writes for `block` at indentation level
/// `level` with `indentation` as the unit: for a block that starts with a
/// line feed, the lines that follow it, without their common leading
/// blanks and without trailing blanks, each indented to the level and
/// ended by a line feed; any other block unchanged.
pub uninterp spec fn indented_block(indentation: Seq<char>, level: nat, block: Seq<char>) -> Seq<
    char,
>;

/// The text that `Debug` writes for the string `text`: the text between
/// double quotes, with escapes where the standard library puts them.
pub uninterp spec fn debug_quoted(text: Seq<char>) -> Seq<char>;

/// A blank in the sense of `char::is_ascii_whitespace`.
pub open spec fn is_blank(c: char) -> bool {
    c == ' ' || c == '\t' || c == '\n' || c == '\r' || c == '\x0C'
}

/// Every line after the first starts with a blank or is empty.
pub open spec fn lines_start_blank(block: Seq<char>) -> bool {
    forall|i: int| 0 < i < block.len() && block[i - 1] == '\n' ==> is_blank(#[trigger] block[i])
}

/// Writes `block` through an `indenter::CodeFormatter` set to `level`
/// (`CodeFormatter::new`, `set_level`, `write_str`). The formatter only
/// appends to `out`, and what it appends depends on the indentation unit,
/// the level and the block alone. It cuts each line at the width of the
/// common indentation, which is inside the line's own leading blanks when
/// every line starts with one.
#[verifier::external_body]
pub(crate) fn write_block(out: &mut String, indentation: &str, level: u32, block: &str)
    requires
        lines_start_blank(block@),
    ensures
        final(out)@ == old(out)@ + indented_block(indentation@, level as nat, block@),
{
    let mut formatter = CodeFormatter::new(out, indentation);
    formatter.set_level(level);
    let _ = formatter.write_str(block);
}

/// Formats `text` with `{:?}`.
#[verifier::external_body]
pub(crate) fn quoted(text: &str) -> (r: String)
    ensures
        r@ == debug_quoted(text@),
{
    format!("{:?}", text)
}

/// Whether every line of `block` after the first starts with a blank or is
/// empty.
pub fn starts_lines_blank(block: &str) -> (r: bool)
    ensures
        r == lines_start_blank(block@),
{
    let mut after_line_feed = false;
    for c in it: block.chars()
        invariant
            it.seq() == block@,
            after_line_feed == (it.index() > 0 && block@[it.index() - 1] == '\n'),
            forall|i: int|
                0 < i < it.index() && block@[i - 1] == '\n' ==> is_blank(#[trigger] block@[i]),
    {
        if after_line_feed && !(c == ' ' || c == '\t' || c == '\n' || c == '\r' || c == '\x0C') {
            return false;
        }
        after_line_feed = c == '\n';
    }
    true
}

/// A piece of text to be laid out at an indentation level.
#[derive(Debug)]
pub struct Block {
    pub level: u32,
    pub text: String,
}

/// The mathematical content of a [`Block`].
pub struct BlockView {
    pub level: nat,
    pub text: Seq<char>,
}

impl DeepView for Block {
    type V = BlockView;

    open spec fn deep_view(&self) -> BlockView {
        BlockView { level: self.level as nat, text: self.text@ }
    }
}

/// The unit of indentation.
pub const INDENTATION: &'static str = "    ";

/// The blocks laid out one after the other, or `None` when a block holds a
/// line that starts with no blank.
pub open spec fn laid_out(blocks: Seq<BlockView>) -> Option<Seq<char>>
    decreases blocks.len(),
{
    if blocks.len() == 0 {
        Some(Seq::empty())
    } else {
        match laid_out(blocks.drop_last()) {
            Some(text) => if lines_start_blank(blocks.last().text) {
                Some(text + indented_block(INDENTATION@, blocks.last().level, blocks.last().text))
            } else {
                None
            },
            None => None,
        }
    }
}

/// Once a block has failed, the blocks after it change nothing.
pub proof fn lemma_laid_out_stays_failed(blocks: Seq<BlockView>, n: int, m: int)
    requires
        0 <= n <= m <= blocks.len(),
        laid_out(blocks.take(n)) is None,
    ensures
        laid_out(blocks.take(m)) is None,
    decreases m,
{
    if n < m {
        lemma_laid_out_stays_failed(blocks, n, m - 1);
        assert(blocks.take(m).drop_last() =~= blocks.take(m - 1));
    }
}

/// Lays the blocks out one after the other.
pub fn lay_out(blocks: &Vec<Block>) -> (r: Result<String, TwineError>)
    ensures
        match r {
            Ok(text) => laid_out(blocks.deep_view()) == Some(text@),
            Err(e) => laid_out(blocks.deep_view()) is None && e@ == TwineErrorView::BrokenLayout,
        },
{
    let ghost all = blocks.deep_view();
    let mut out = String::new();
    let mut i: usize = 0;
    proof {
        assert(all.take(0) =~= Seq::<BlockView>::empty());
    }
    while i < blocks.len()
        invariant
            i <= blocks.len(),
            all == blocks.deep_view(),
            laid_out(all.take(i as int)) == Some(out@),
        decreases blocks.len() - i,
    {
        proof {
            assert(all.take(i + 1).drop_last() =~= all.take(i as int));
            assert(all.take(i + 1).last() == blocks@[i as int].deep_view());
        }
        if !starts_lines_blank(blocks[i].text.as_str()) {
            proof {
                lemma_laid_out_stays_failed(all, i + 1, all.len() as int);
                assert(all.take(all.len() as int) =~= all);
            }
            return Err(TwineError::BrokenLayout);
        }
        write_block(&mut out, INDENTATION, blocks[i].level, blocks[i].text.as_str());
        i += 1;
    }
    proof {
        assert(all.take(all.len() as int) =~= all);
    }
    Ok(out)
}

} // verus!
