//! A plain-text outline of a document tree: one line for each node, indented
//! by the depth of the node.
//!
//! ```text
//! Block 0: Section (level 1)
//!   Title: 1 items
//!     Inline 0: Text("Title")
//!   Content: 1 nested blocks
//!     Block 0: Paragraph
//!       Inline nodes: 2 items
//!         Inline 0: Text("some")
//!         Inline 1: Bold
//!           Inline 0: Text("text")
//! ```

use vstd::prelude::*;
use crate::ast::{
    block_views, inline_views, Block, BlockView, Document, DocumentView, Inline, InlineView,
};
use crate::error_recovery::{decimal, decimal_text};
use crate::lexer::characters;

verus! {

/// What stands for a character between the quotes of a text: a backslash and
/// the character for `"` and `\`, the character itself for every other.
pub open spec fn escaped_char(c: char) -> Seq<char> {
    if c == '"' || c == '\\' {
        seq!['\\', c]
    } else {
        seq![c]
    }
}

/// What stands for a text between quotes: each `"` and each `\` with a
/// backslash in front of it, every other character as it is.
pub open spec fn escaped(text: Seq<char>) -> Seq<char>
    decreases text.len(),
{
    if text.len() == 0 {
        Seq::empty()
    } else {
        escaped(text.drop_last()) + escaped_char(text.last())
    }
}

/// The line that names the inline node at index `index` of its parent. The
/// text of a text node stands between quotes, escaped as [`escaped`] says.
pub open spec fn inline_line(node: InlineView, prefix: Seq<char>, index: nat) -> Seq<char> {
    let head = prefix + "Inline "@ + decimal_text(index);
    match node {
        InlineView::Text(text) => head + ": Text(\""@ + escaped(text) + "\")"@,
        InlineView::Bold(_) => head + ": Bold"@,
        InlineView::Italic(_) => head + ": Italic"@,
    }
}

/// The lines of the inline node at index `index` of its parent: its own line,
/// and the lines of the nodes it wraps, indented by one step more.
pub open spec fn inline_lines(node: InlineView, prefix: Seq<char>, index: nat) -> Seq<Seq<char>>
    decreases node, 1nat,
{
    match node {
        InlineView::Text(_) => seq![inline_line(node, prefix, index)],
        InlineView::Bold(items) => seq![inline_line(node, prefix, index)] + inlines_lines(items, prefix + "  "@),
        InlineView::Italic(items) => seq![inline_line(node, prefix, index)] + inlines_lines(items, prefix + "  "@),
    }
}

/// The lines of a sequence of inline nodes.
pub open spec fn inlines_lines(items: Seq<InlineView>, prefix: Seq<char>) -> Seq<Seq<char>>
    decreases items, 0nat,
{
    if items.len() == 0 {
        Seq::empty()
    } else {
        inlines_lines(items.drop_last(), prefix) + inline_lines(items.last(), prefix, (items.len() - 1) as nat)
    }
}

/// The lines of the block at index `index` of its parent: the line that names
/// it, a line that counts its nodes, and the lines of what it holds, indented
/// by two steps more.
pub open spec fn block_lines(block: BlockView, prefix: Seq<char>, index: nat) -> Seq<Seq<char>>
    decreases block, 1nat,
{
    let head = prefix + "Block "@ + decimal_text(index);
    match block {
        BlockView::Paragraph { content } => seq![
            head + ": Paragraph"@,
            prefix + "  Inline nodes: "@ + decimal_text(content.len()) + " items"@,
        ] + inlines_lines(content, prefix + "    "@),
        BlockView::Section { level, title, content } => seq![
            head + ": Section (level "@ + decimal_text(level) + ")"@,
            prefix + "  Title: "@ + decimal_text(title.len()) + " items"@,
        ] + inlines_lines(title, prefix + "    "@) + (if content.len() == 0 {
            seq![prefix + "  Content: (empty)"@]
        } else {
            seq![prefix + "  Content: "@ + decimal_text(content.len()) + " nested blocks"@] + blocks_lines(
                content,
                prefix + "    "@,
            )
        }),
    }
}

/// The lines of a sequence of blocks.
pub open spec fn blocks_lines(blocks: Seq<BlockView>, prefix: Seq<char>) -> Seq<Seq<char>>
    decreases blocks, 0nat,
{
    if blocks.len() == 0 {
        Seq::empty()
    } else {
        blocks_lines(blocks.drop_last(), prefix) + block_lines(blocks.last(), prefix, (blocks.len() - 1) as nat)
    }
}

/// The lines of the outline of a document.
pub open spec fn document_lines(doc: DocumentView) -> Seq<Seq<char>> {
    blocks_lines(doc.blocks, Seq::empty())
}

/// The texts of a sequence of lines.
pub open spec fn line_views(lines: Seq<String>) -> Seq<Seq<char>> {
    lines.map_values(|line: String| line@)
}

proof fn lemma_line_views_push(lines: Seq<String>, line: String)
    ensures
        line_views(lines.push(line)) == line_views(lines) + seq![line@],
{
    assert(line_views(lines.push(line)) =~= line_views(lines) + seq![line@]);
}

proof fn lemma_inlines_lines_take(items: Seq<InlineView>, prefix: Seq<char>, n: int)
    requires
        0 <= n < items.len(),
    ensures
        inlines_lines(items.take(n + 1), prefix) == inlines_lines(items.take(n), prefix) + inline_lines(
            items[n],
            prefix,
            n as nat,
        ),
{
    assert(items.take(n + 1).drop_last() =~= items.take(n));
}

proof fn lemma_blocks_lines_take(blocks: Seq<BlockView>, prefix: Seq<char>, n: int)
    requires
        0 <= n < blocks.len(),
    ensures
        blocks_lines(blocks.take(n + 1), prefix) == blocks_lines(blocks.take(n), prefix) + block_lines(
            blocks[n],
            prefix,
            n as nat,
        ),
{
    assert(blocks.take(n + 1).drop_last() =~= blocks.take(n));
}

fn indented(prefix: &str, steps: &'static str) -> (deeper: String)
    ensures
        deeper@ == prefix@ + steps@,
{
    let mut deeper = String::from_str(prefix);
    deeper.append(steps);
    deeper
}

fn counted(prefix: &str, label: &'static str, count: usize, unit: &'static str) -> (line: String)
    ensures
        line@ == prefix@ + label@ + decimal_text(count as nat) + unit@,
{
    let mut line = String::from_str(prefix);
    line.append(label);
    let number = decimal(count);
    line.append(number.as_str());
    line.append(unit);
    line
}

fn escape_into(text: &str, line: &mut String)
    ensures
        final(line)@ == old(line)@ + escaped(text@),
{
    let chars = characters(text);
    let mut index: usize = 0;
    assert(chars@.take(0) =~= Seq::<char>::empty());
    assert(line@ + escaped(chars@.take(0)) =~= line@);
    while index < chars.len()
        invariant
            index <= chars.len(),
            chars@ == text@,
            line@ == old(line)@ + escaped(chars@.take(index as int)),
        decreases chars.len() - index,
    {
        let c = chars[index];
        let ghost before = line@;
        proof {
            assert(chars@.take(index as int + 1).drop_last() =~= chars@.take(index as int));
            assert(chars@.take(index as int + 1).last() == c);
        }
        if c == '"' || c == '\\' {
            line.push('\\');
        }
        line.push(c);
        assert(line@ =~= before + escaped_char(c));
        assert(line@ =~= old(line)@ + escaped(chars@.take(index as int + 1)));
        index = index + 1;
    }
    assert(chars@.take(chars.len() as int) =~= chars@);
}

fn inline_into(node: &Inline, prefix: &str, index: usize, out: &mut Vec<String>)
    ensures
        line_views(final(out)@) == line_views(old(out)@) + inline_lines(node@, prefix@, index as nat),
    decreases node, 1nat,
{
    let ghost before = line_views(out@);
    match node {
        Inline::Text(text) => {
            let mut line = counted(prefix, "Inline ", index, ": Text(\"");
            escape_into(text.as_str(), &mut line);
            line.append("\")");
            proof {
                lemma_line_views_push(out@, line);
            }
            out.push(line);
        },
        Inline::Bold(items) => {
            let line = counted(prefix, "Inline ", index, ": Bold");
            proof {
                lemma_line_views_push(out@, line);
            }
            out.push(line);
            let deeper = indented(prefix, "  ");
            inlines_into(items, deeper.as_str(), out);
            assert(line_views(out@) =~= before + inline_lines(node@, prefix@, index as nat));
        },
        Inline::Italic(items) => {
            let line = counted(prefix, "Inline ", index, ": Italic");
            proof {
                lemma_line_views_push(out@, line);
            }
            out.push(line);
            let deeper = indented(prefix, "  ");
            inlines_into(items, deeper.as_str(), out);
            assert(line_views(out@) =~= before + inline_lines(node@, prefix@, index as nat));
        },
    }
}

fn inlines_into(items: &Vec<Inline>, prefix: &str, out: &mut Vec<String>)
    ensures
        line_views(final(out)@) == line_views(old(out)@) + inlines_lines(inline_views(items@), prefix@),
    decreases items, 0nat,
{
    let ghost before = line_views(out@);
    let ghost views = inline_views(items@);
    let mut index: usize = 0;
    assert(before + inlines_lines(views.take(0), prefix@) =~= before);
    while index < items.len()
        invariant
            index <= items.len(),
            views == inline_views(items@),
            line_views(out@) == before + inlines_lines(views.take(index as int), prefix@),
        decreases items.len() - index,
    {
        let ghost so_far = line_views(out@);
        inline_into(&items[index], prefix, index, out);
        proof {
            lemma_inlines_lines_take(views, prefix@, index as int);
            assert(so_far + inline_lines(views[index as int], prefix@, index as nat) =~= before + inlines_lines(
                views.take(index as int + 1),
                prefix@,
            ));
        }
        index = index + 1;
    }
    assert(views.take(items.len() as int) =~= views);
}

fn block_into(block: &Block, prefix: &str, index: usize, out: &mut Vec<String>)
    ensures
        line_views(final(out)@) == line_views(old(out)@) + block_lines(block@, prefix@, index as nat),
    decreases block, 1nat,
{
    let ghost before = line_views(out@);
    let deeper = indented(prefix, "    ");
    match block {
        Block::Paragraph { content } => {
            let name = counted(prefix, "Block ", index, ": Paragraph");
            proof {
                lemma_line_views_push(out@, name);
            }
            out.push(name);
            let count = counted(prefix, "  Inline nodes: ", content.len(), " items");
            proof {
                lemma_line_views_push(out@, count);
            }
            out.push(count);
            inlines_into(content, deeper.as_str(), out);
            assert(line_views(out@) =~= before + block_lines(block@, prefix@, index as nat));
        },
        Block::Section { level, title, content } => {
            let mut name = counted(prefix, "Block ", index, ": Section (level ");
            let number = decimal(*level as usize);
            name.append(number.as_str());
            name.append(")");
            proof {
                lemma_line_views_push(out@, name);
            }
            out.push(name);
            let count = counted(prefix, "  Title: ", title.len(), " items");
            proof {
                lemma_line_views_push(out@, count);
            }
            out.push(count);
            inlines_into(title, deeper.as_str(), out);
            if content.len() == 0 {
                let mut empty = String::from_str(prefix);
                empty.append("  Content: (empty)");
                proof {
                    lemma_line_views_push(out@, empty);
                }
                out.push(empty);
            } else {
                let nested = counted(prefix, "  Content: ", content.len(), " nested blocks");
                proof {
                    lemma_line_views_push(out@, nested);
                }
                out.push(nested);
                blocks_into(content, deeper.as_str(), out);
            }
            assert(line_views(out@) =~= before + block_lines(block@, prefix@, index as nat));
        },
    }
}

fn blocks_into(blocks: &Vec<Block>, prefix: &str, out: &mut Vec<String>)
    ensures
        line_views(final(out)@) == line_views(old(out)@) + blocks_lines(block_views(blocks@), prefix@),
    decreases blocks, 0nat,
{
    let ghost before = line_views(out@);
    let ghost views = block_views(blocks@);
    let mut index: usize = 0;
    assert(before + blocks_lines(views.take(0), prefix@) =~= before);
    while index < blocks.len()
        invariant
            index <= blocks.len(),
            views == block_views(blocks@),
            line_views(out@) == before + blocks_lines(views.take(index as int), prefix@),
        decreases blocks.len() - index,
    {
        let ghost so_far = line_views(out@);
        block_into(&blocks[index], prefix, index, out);
        proof {
            lemma_blocks_lines_take(views, prefix@, index as int);
            assert(so_far + block_lines(views[index as int], prefix@, index as nat) =~= before + blocks_lines(
                views.take(index as int + 1),
                prefix@,
            ));
        }
        index = index + 1;
    }
    assert(views.take(blocks.len() as int) =~= views);
}

/// Writes the outline of a document: one line for each block and each inline
/// node, in the order of the tree, each indented by the depth of its node.
pub fn outline(doc: &Document) -> (lines: Vec<String>)
    ensures
        line_views(lines@) == document_lines(doc@),
{
    let mut lines: Vec<String> = Vec::new();
    assert(line_views(lines@) =~= Seq::<Seq<char>>::empty());
    let prefix = String::new();
    blocks_into(&doc.blocks, prefix.as_str(), &mut lines);
    assert(Seq::<Seq<char>>::empty() + document_lines(doc@) =~= document_lines(doc@));
    lines
}

} // verus!
