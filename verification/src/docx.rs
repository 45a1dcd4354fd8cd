//! The text of Word documents: paragraphs and tables, read in document order, from the
//! blocks of a document body.
use vstd::prelude::*;

use crate::words::push_char;

verus! {

/// A Word document file.
pub struct DocxFile<P> {
    pub filename: P,
}

impl<P> DocxFile<P> {
    /// The document at `filename`.
    pub fn new(filename: P) -> (r: Self)
        ensures
            r.filename == filename,
    {
        Self { filename }
    }
}

/// A block of a document body or of a table cell: a paragraph with its text, a table, or
/// anything else.
#[derive(Debug)]
pub enum DocxBlock {
    Paragraph(String),
    Table(DocxTable),
    Other,
}

/// A table: its rows, each a list of cells, each a list of blocks.
#[derive(Debug)]
pub struct DocxTable {
    pub rows: Vec<Vec<Vec<DocxBlock>>>,
}

/// The text a block contributes: a paragraph's text or a table's text, followed by a space;
/// nothing for anything else.
pub open spec fn block_text(b: DocxBlock) -> Seq<char>
    decreases b,
{
    match b {
        DocxBlock::Paragraph(s) => s@.push(' '),
        DocxBlock::Table(t) => rows_text(t.rows@).push(' '),
        DocxBlock::Other => Seq::empty(),
    }
}

/// The text of rows of a table, row after row.
pub open spec fn rows_text(rows: Seq<Vec<Vec<DocxBlock>>>) -> Seq<char>
    decreases rows,
{
    if rows.len() == 0 {
        Seq::empty()
    } else {
        rows_text(rows.drop_last()) + cells_text(rows.last()@)
    }
}

/// The text of the cells of a row, cell after cell.
pub open spec fn cells_text(cells: Seq<Vec<DocxBlock>>) -> Seq<char>
    decreases cells,
{
    if cells.len() == 0 {
        Seq::empty()
    } else {
        cells_text(cells.drop_last()) + blocks_text(cells.last()@)
    }
}

/// The text of a list of blocks, block after block.
pub open spec fn blocks_text(bs: Seq<DocxBlock>) -> Seq<char>
    decreases bs,
{
    if bs.len() == 0 {
        Seq::empty()
    } else {
        blocks_text(bs.drop_last()) + block_text(bs.last())
    }
}

/// The text of blocks one after the other is the text of the first followed by the text of
/// the second.
pub proof fn lemma_blocks_text_concat(a: Seq<DocxBlock>, b: Seq<DocxBlock>)
    ensures
        blocks_text(a + b) == blocks_text(a) + blocks_text(b),
    decreases b.len(),
{
    if b.len() == 0 {
        assert(a + b =~= a);
        assert(blocks_text(a) + Seq::<char>::empty() =~= blocks_text(a));
    } else {
        lemma_blocks_text_concat(a, b.drop_last());
        assert((a + b).drop_last() =~= a + b.drop_last());
        assert((a + b).last() == b.last());
        assert(blocks_text(a + b) =~= blocks_text(a) + blocks_text(b));
    }
}

/// The blocks of the cells `cells`, cell after cell.
pub open spec fn cell_blocks(cells: Seq<Vec<DocxBlock>>) -> Seq<DocxBlock>
    decreases cells.len(),
{
    if cells.len() == 0 {
        Seq::empty()
    } else {
        cell_blocks(cells.drop_last()) + cells.last()@
    }
}

/// The blocks of all the cells of the rows `rows`, row after row.
pub open spec fn table_blocks(rows: Seq<Vec<Vec<DocxBlock>>>) -> Seq<DocxBlock>
    decreases rows.len(),
{
    if rows.len() == 0 {
        Seq::empty()
    } else {
        table_blocks(rows.drop_last()) + cell_blocks(rows.last()@)
    }
}

/// The text of a cell is the text of every one of its blocks, in order; the text of cells is
/// the text of all their blocks, cell after cell.
pub proof fn lemma_cells_text_is_blocks_text(cells: Seq<Vec<DocxBlock>>, c: Vec<DocxBlock>)
    ensures
        cells_text(seq![c]) == blocks_text(c@),
        cells_text(cells) == blocks_text(cell_blocks(cells)),
    decreases cells.len(),
{
    let one = seq![c];
    assert(one.drop_last() =~= Seq::<Vec<DocxBlock>>::empty());
    assert(one.last() == c);
    assert(cells_text(one.drop_last()) =~= Seq::<char>::empty());
    assert(Seq::<char>::empty() + blocks_text(c@) =~= blocks_text(c@));
    assert(cells_text(one) =~= blocks_text(c@));
    if cells.len() > 0 {
        lemma_cells_text_is_blocks_text(cells.drop_last(), c);
        lemma_blocks_text_concat(cell_blocks(cells.drop_last()), cells.last()@);
    }
}

/// The text of a table's rows is the text of all the blocks of all their cells, in order:
/// no block of any cell is left out.
pub proof fn lemma_rows_text_is_blocks_text(rows: Seq<Vec<Vec<DocxBlock>>>)
    ensures
        rows_text(rows) == blocks_text(table_blocks(rows)),
    decreases rows.len(),
{
    if rows.len() > 0 {
        lemma_rows_text_is_blocks_text(rows.drop_last());
        lemma_cells_text_is_blocks_text(rows.last()@, rows.last()@[0]);
        lemma_blocks_text_concat(table_blocks(rows.drop_last()), cell_blocks(rows.last()@));
    }
}

/// Appends the text of a block to `content`.
fn push_block_text(content: &mut String, b: &DocxBlock)
    ensures
        final(content)@ == old(content)@ + block_text(*b),
    decreases b,
{
    match b {
        DocxBlock::Paragraph(p) => {
            content.append(p.as_str());
            push_char(content, ' ');
        },
        DocxBlock::Table(t) => {
            let text = parse_table(t);
            content.append(text.as_str());
            push_char(content, ' ');
        },
        DocxBlock::Other => {},
    }
}

/// The text of a table: the text of each block of each cell of each row, in order.
pub fn parse_table(table: &DocxTable) -> (r: String)
    ensures
        r@ == rows_text(table.rows@),
        r@ == blocks_text(table_blocks(table.rows@)),
    decreases table,
{
    proof {
        lemma_rows_text_is_blocks_text(table.rows@);
    }
    let mut content = String::new();
    let mut i: usize = 0;
    while i < table.rows.len()
        invariant
            i <= table.rows@.len(),
            content@ == rows_text(table.rows@.take(i as int)),
        decreases table.rows@.len() - i,
    {
        let row = &table.rows[i];
        let mut j: usize = 0;
        while j < row.len()
            invariant
                i < table.rows@.len(),
                *row == table.rows@[i as int],
                j <= row@.len(),
                content@ == rows_text(table.rows@.take(i as int)) + cells_text(
                    row@.take(j as int),
                ),
            decreases row@.len() - j,
        {
            let cell = &row[j];
            let mut k: usize = 0;
            while k < cell.len()
                invariant
                    i < table.rows@.len(),
                    *row == table.rows@[i as int],
                    j < row@.len(),
                    *cell == row@[j as int],
                    k <= cell@.len(),
                    content@ == rows_text(table.rows@.take(i as int)) + cells_text(
                        row@.take(j as int),
                    ) + blocks_text(cell@.take(k as int)),
                decreases cell@.len() - k,
            {
                push_block_text(&mut content, &cell[k]);
                assert(cell@.take(k + 1).drop_last() =~= cell@.take(k as int));
                k += 1;
            }
            assert(cell@.take(k as int) =~= cell@);
            assert(row@.take(j + 1).drop_last() =~= row@.take(j as int));
            j += 1;
        }
        assert(row@.take(j as int) =~= row@);
        assert(table.rows@.take(i + 1).drop_last() =~= table.rows@.take(i as int));
        i += 1;
    }
    assert(table.rows@.take(i as int) =~= table.rows@);
    content
}

/// The text of a document body: the text of each of its blocks, in order.
pub fn document_text(blocks: &Vec<DocxBlock>) -> (r: String)
    ensures
        r@ == blocks_text(blocks@),
{
    let mut content = String::new();
    let mut i: usize = 0;
    while i < blocks.len()
        invariant
            i <= blocks@.len(),
            content@ == blocks_text(blocks@.take(i as int)),
        decreases blocks@.len() - i,
    {
        push_block_text(&mut content, &blocks[i]);
        assert(blocks@.take(i + 1).drop_last() =~= blocks@.take(i as int));
        i += 1;
    }
    assert(blocks@.take(i as int) =~= blocks@);
    content
}

} // verus!
