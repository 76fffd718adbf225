//! Tables of text for inspecting data while debugging: how a table is laid
//! out as text, and how the usual tables are assembled from cells.

use vstd::prelude::*;
use vstd::string::{StrSliceExecFns, StringExecFns, StringSliceAdditionalSpecFns};
use vstd::utf8::encode_utf8;
use crate::text::{decimal_text, push_char, push_decimal, push_repeated, repeated};

verus! {

/// Where the text of a cell stands in its column.
#[derive(Clone, Copy, Debug, PartialEq, Eq, Structural)]
pub enum Align {
    Left,
    Center,
    Right,
}

/// One cell of a table.
pub struct Cell {
    pub text: String,
    pub align: Align,
}

/// A table of cells, row by row.
pub struct Table {
    pub table: Vec<Vec<Cell>>,
}

/// A cell as its text and its alignment.
pub open spec fn cell_model(c: Cell) -> (Seq<char>, Align) {
    (c.text@, c.align)
}

/// A row as the texts and alignments of its cells.
pub open spec fn row_model(row: Seq<Cell>) -> Seq<(Seq<char>, Align)> {
    Seq::new(row.len(), |j: int| cell_model(row[j]))
}

/// A table as the texts and alignments of its cells.
pub open spec fn table_model(rows: Seq<Vec<Cell>>) -> Seq<Seq<(Seq<char>, Align)>> {
    Seq::new(rows.len(), |i: int| row_model(rows[i]@))
}

impl View for Table {
    type V = Seq<Seq<(Seq<char>, Align)>>;

    open spec fn view(&self) -> Seq<Seq<(Seq<char>, Align)>> {
        table_model(self.table@)
    }
}

/// The empty cell that fills a row up.
pub open spec fn blank() -> (Seq<char>, Align) {
    (Seq::empty(), Align::Left)
}

/// The cells that number the columns `0..w`.
pub open spec fn numbers(w: nat) -> Seq<(Seq<char>, Align)> {
    Seq::new(w, |i: int| (decimal_text(i as nat), Align::Center))
}

/// `n` empty cells.
pub open spec fn blanks(n: nat) -> Seq<(Seq<char>, Align)> {
    Seq::new(n, |i: int| blank())
}

/// The length of the longest of the first `k` rows.
pub open spec fn longest(lens: Seq<nat>, k: nat) -> nat
    decreases k,
{
    if k == 0 {
        0
    } else {
        let rest = longest(lens, (k - 1) as nat);
        if lens[k - 1] > rest {
            lens[k - 1]
        } else {
            rest
        }
    }
}

pub proof fn lemma_longest_bounds(lens: Seq<nat>, k: nat, i: int)
    requires
        0 <= i < k <= lens.len(),
    ensures
        lens[i] <= longest(lens, k),
    decreases k,
{
    if i < k - 1 {
        lemma_longest_bounds(lens, (k - 1) as nat, i);
    }
}

/// The lengths of the rows that belong to the titles.
pub open spec fn titled_lens(vecs: Seq<(String, Vec<Cell>)>) -> Seq<nat> {
    Seq::new(vecs.len(), |i: int| vecs[i].1@.len())
}

/// A titled row laid out across `w` columns: the title, the cells, and empty cells to fill up.
pub open spec fn titled_row(title: Seq<char>, cells: Seq<Cell>, w: nat) -> Seq<
    (Seq<char>, Align),
> {
    seq![(title, Align::Center)] + row_model(cells) + blanks((w - cells.len()) as nat)
}

/// The table with one row per titled sequence, below a row that numbers the columns.
pub open spec fn hvec_model(vecs: Seq<(String, Vec<Cell>)>) -> Seq<Seq<(Seq<char>, Align)>> {
    let w = longest(titled_lens(vecs), vecs.len());
    seq![seq![blank()] + numbers(w)] + Seq::new(
        vecs.len(),
        |i: int| titled_row(vecs[i].0@, vecs[i].1@, w),
    )
}

/// Entry `i` of a titled sequence as a cell, or an empty cell where the sequence is shorter.
pub open spec fn entry_or_blank(cells: Seq<Cell>, i: int) -> (Seq<char>, Align) {
    if i < cells.len() {
        cell_model(cells[i])
    } else {
        blank()
    }
}

/// The table with one column per titled sequence, beside a column that numbers the rows.
pub open spec fn vvec_model(vecs: Seq<(String, Vec<Cell>)>) -> Seq<Seq<(Seq<char>, Align)>> {
    let h = longest(titled_lens(vecs), vecs.len());
    seq![
        seq![(Seq::<char>::empty(), Align::Center)] + Seq::new(
            vecs.len(),
            |j: int| (vecs[j].0@, Align::Center),
        ),
    ] + Seq::new(
        h,
        |i: int|
            seq![(decimal_text(i as nat), Align::Center)] + Seq::new(
                vecs.len(),
                |j: int| entry_or_blank(vecs[j].1@, i),
            ),
    )
}

/// The lengths of the rows of a grid.
pub open spec fn grid_lens(rows: Seq<Vec<Cell>>) -> Seq<nat> {
    Seq::new(rows.len(), |i: int| rows[i]@.len())
}

/// The table of a grid: its rows, numbered, below a row that numbers the columns.
pub open spec fn vec2_model(title: Seq<char>, rows: Seq<Vec<Cell>>) -> Seq<
    Seq<(Seq<char>, Align)>,
> {
    let w = longest(grid_lens(rows), rows.len());
    seq![seq![(title, Align::Left)] + numbers(w)] + Seq::new(
        rows.len(),
        |j: int|
            seq![(decimal_text(j as nat), Align::Center)] + row_model(rows[j]@) + blanks(
                (w - rows[j]@.len()) as nat,
            ),
    )
}

/// The table of a map, one row per entry below the title.
pub open spec fn vmap_model(title: Seq<char>, entries: Seq<(String, Cell)>) -> Seq<
    Seq<(Seq<char>, Align)>,
> {
    seq![seq![blank(), (title, Align::Center)]] + Seq::new(
        entries.len(),
        |i: int| seq![(entries[i].0@, Align::Center), cell_model(entries[i].1)],
    )
}

/// The table of a map, one column per entry beside the title.
pub open spec fn hmap_model(title: Seq<char>, entries: Seq<(String, Cell)>) -> Seq<
    Seq<(Seq<char>, Align)>,
> {
    seq![
        seq![blank()] + Seq::new(entries.len(), |i: int| (entries[i].0@, Align::Center)),
        seq![(title, Align::Left)] + Seq::new(entries.len(), |i: int| cell_model(entries[i].1)),
    ]
}

fn copy_cell(c: &Cell) -> (r: Cell)
    ensures
        cell_model(r) == cell_model(*c),
{
    Cell { text: c.text.clone(), align: c.align }
}

fn text_cell(text: &str, align: Align) -> (r: Cell)
    ensures
        cell_model(r) == (text@, align),
{
    Cell { text: text.to_owned(), align }
}

fn empty_cell(align: Align) -> (r: Cell)
    ensures
        cell_model(r) == (Seq::<char>::empty(), align),
{
    Cell { text: String::new(), align }
}

fn number_cell(i: usize) -> (r: Cell)
    ensures
        cell_model(r) == (decimal_text(i as nat), Align::Center),
{
    let mut text = String::new();
    push_decimal(&mut text, i as u64);
    proof {
        assert(Seq::<char>::empty() + decimal_text(i as nat) =~= decimal_text(i as nat));
    }
    Cell { text, align: Align::Center }
}

/// Appends the cells that number the columns `0..w`.
fn push_numbers(row: &mut Vec<Cell>, w: usize)
    ensures
        row_model(final(row)@) == row_model(old(row)@) + numbers(w as nat),
        final(row)@.len() == old(row)@.len() + w,
{
    let mut i: usize = 0;
    proof {
        assert(row_model(row@) + Seq::new(0, |k: int| (decimal_text(k as nat), Align::Center))
            =~= row_model(row@));
    }
    while i < w
        invariant
            i <= w,
            row@.len() == old(row)@.len() + i,
            row_model(row@) == row_model(old(row)@) + Seq::new(
                i as nat,
                |k: int| (decimal_text(k as nat), Align::Center),
            ),
        decreases w - i,
    {
        let ghost before = row@;
        row.push(number_cell(i));
        proof {
            assert(row_model(row@) =~= row_model(before).push(
                (decimal_text(i as nat), Align::Center),
            ));
            assert(row_model(row@) =~= row_model(old(row)@) + Seq::new(
                (i + 1) as nat,
                |k: int| (decimal_text(k as nat), Align::Center),
            ));
        }
        i += 1;
    }
}

/// Appends copies of the given cells.
fn push_cells(row: &mut Vec<Cell>, cells: &Vec<Cell>)
    ensures
        row_model(final(row)@) == row_model(old(row)@) + row_model(cells@),
        final(row)@.len() == old(row)@.len() + cells@.len(),
{
    let mut i: usize = 0;
    proof {
        assert(row_model(row@) + row_model(cells@.take(0)) =~= row_model(row@));
    }
    while i < cells.len()
        invariant
            i <= cells.len(),
            row@.len() == old(row)@.len() + i,
            row_model(row@) == row_model(old(row)@) + row_model(cells@.take(i as int)),
        decreases cells.len() - i,
    {
        let ghost before = row@;
        row.push(copy_cell(&cells[i]));
        proof {
            assert(row_model(row@) =~= row_model(before).push(cell_model(cells[i as int])));
            assert(row_model(cells@.take(i + 1)) =~= row_model(cells@.take(i as int)).push(
                cell_model(cells[i as int]),
            ));
            assert(row_model(row@) =~= row_model(old(row)@) + row_model(cells@.take(i + 1)));
        }
        i += 1;
    }
    proof {
        assert(cells@.take(cells.len() as int) =~= cells@);
    }
}

/// Appends empty cells until the row holds `len` cells.
fn fill_up(row: &mut Vec<Cell>, len: usize)
    requires
        old(row)@.len() <= len,
    ensures
        row_model(final(row)@) == row_model(old(row)@) + blanks((len - old(row)@.len()) as nat),
        final(row)@.len() == len,
{
    proof {
        assert(row_model(row@) + blanks(0) =~= row_model(row@));
    }
    while row.len() < len
        invariant
            old(row)@.len() <= row@.len() <= len,
            row_model(row@) == row_model(old(row)@) + blanks(
                (row@.len() - old(row)@.len()) as nat,
            ),
        decreases len - row.len(),
    {
        let ghost before = row@;
        row.push(empty_cell(Align::Left));
        proof {
            assert(row_model(row@) =~= row_model(before).push(blank()));
            assert(row_model(row@) =~= row_model(old(row)@) + blanks(
                (row@.len() - old(row)@.len()) as nat,
            ));
        }
    }
}

/// The length of the longest of the titled sequences.
fn longest_titled(vecs: &Vec<(String, Vec<Cell>)>) -> (w: usize)
    ensures
        w == longest(titled_lens(vecs@), vecs@.len()),
{
    let mut w: usize = 0;
    let mut i: usize = 0;
    while i < vecs.len()
        invariant
            i <= vecs.len(),
            w == longest(titled_lens(vecs@), i as nat),
        decreases vecs.len() - i,
    {
        if vecs[i].1.len() > w {
            w = vecs[i].1.len();
        }
        i += 1;
    }
    w
}

/// The length of the longest row of a grid.
fn longest_row(rows: &Vec<Vec<Cell>>) -> (w: usize)
    ensures
        w == longest(grid_lens(rows@), rows@.len()),
{
    let mut w: usize = 0;
    let mut i: usize = 0;
    while i < rows.len()
        invariant
            i <= rows.len(),
            w == longest(grid_lens(rows@), i as nat),
        decreases rows.len() - i,
    {
        if rows[i].len() > w {
            w = rows[i].len();
        }
        i += 1;
    }
    w
}

/// A table with one row per titled sequence, below a row that numbers the columns.
#[verifier::rlimit(40)]
pub fn hvec(vecs: &Vec<(String, Vec<Cell>)>) -> (t: Table)
    requires
        vecs@.len() > 0,
        longest(titled_lens(vecs@), vecs@.len()) < usize::MAX,
    ensures
        t@ == hvec_model(vecs@),
{
    let w = longest_titled(vecs);
    let mut table: Vec<Vec<Cell>> = Vec::new();
    let mut head: Vec<Cell> = Vec::new();
    head.push(empty_cell(Align::Left));
    proof {
        assert(row_model(head@) =~= seq![blank()]);
    }
    push_numbers(&mut head, w);
    table.push(head);
    let mut i: usize = 0;
    while i < vecs.len()
        invariant
            i <= vecs.len(),
            w == longest(titled_lens(vecs@), vecs@.len()),
            w < usize::MAX,
            table@.len() == i + 1,
            row_model(table@[0]@) == seq![blank()] + numbers(w as nat),
            forall|r: int|
                1 <= r <= i ==> row_model(#[trigger] table@[r]@) == titled_row(
                    vecs[r - 1].0@,
                    vecs[r - 1].1@,
                    w as nat,
                ),
        decreases vecs.len() - i,
    {
        let mut row: Vec<Cell> = Vec::new();
        row.push(text_cell(vecs[i].0.as_str(), Align::Center));
        proof {
            assert(row_model(row@) =~= seq![(vecs[i as int].0@, Align::Center)]);
            lemma_longest_bounds(titled_lens(vecs@), vecs@.len(), i as int);
        }
        push_cells(&mut row, &vecs[i].1);
        fill_up(&mut row, 1 + w);
        table.push(row);
        i += 1;
    }
    let t = Table { table };
    proof {
        let m = hvec_model(vecs@);
        assert(t@.len() == m.len());
        assert forall|r: int| 0 <= r < t@.len() implies t@[r] == m[r] by {
            assert(t@[r] == row_model(t.table@[r]@));
        }
        assert(t@ =~= m);
    }
    t
}

/// A table with one column per titled sequence, beside a column that numbers the rows.
#[verifier::rlimit(40)]
pub fn vvec(vecs: &Vec<(String, Vec<Cell>)>) -> (t: Table)
    requires
        vecs@.len() > 0,
    ensures
        t@ == vvec_model(vecs@),
{
    let h = longest_titled(vecs);
    let mut table: Vec<Vec<Cell>> = Vec::new();
    let mut head: Vec<Cell> = Vec::new();
    head.push(empty_cell(Align::Center));
    let mut j: usize = 0;
    while j < vecs.len()
        invariant
            j <= vecs.len(),
            row_model(head@) == seq![(Seq::<char>::empty(), Align::Center)] + Seq::new(
                j as nat,
                |k: int| (vecs[k].0@, Align::Center),
            ),
        decreases vecs.len() - j,
    {
        let ghost before = head@;
        head.push(text_cell(vecs[j].0.as_str(), Align::Center));
        proof {
            assert(row_model(head@) =~= row_model(before).push((vecs[j as int].0@, Align::Center)));
            assert(row_model(head@) =~= seq![(Seq::<char>::empty(), Align::Center)] + Seq::new(
                (j + 1) as nat,
                |k: int| (vecs[k].0@, Align::Center),
            ));
        }
        j += 1;
    }
    table.push(head);
    let mut i: usize = 0;
    while i < h
        invariant
            i <= h,
            table@.len() == i + 1,
            row_model(table@[0]@) == seq![(Seq::<char>::empty(), Align::Center)] + Seq::new(
                vecs@.len(),
                |k: int| (vecs[k].0@, Align::Center),
            ),
            forall|r: int|
                1 <= r <= i ==> row_model(#[trigger] table@[r]@) == seq![
                    (decimal_text((r - 1) as nat), Align::Center),
                ] + Seq::new(vecs@.len(), |k: int| entry_or_blank(vecs[k].1@, r - 1)),
        decreases h - i,
    {
        let mut row: Vec<Cell> = Vec::new();
        row.push(number_cell(i));
        let mut j: usize = 0;
        while j < vecs.len()
            invariant
                j <= vecs.len(),
                row_model(row@) == seq![(decimal_text(i as nat), Align::Center)] + Seq::new(
                    j as nat,
                    |k: int| entry_or_blank(vecs[k].1@, i as int),
                ),
            decreases vecs.len() - j,
        {
            let ghost before = row@;
            let cell = if i < vecs[j].1.len() {
                copy_cell(&vecs[j].1[i])
            } else {
                empty_cell(Align::Left)
            };
            row.push(cell);
            proof {
                assert(row_model(row@) =~= row_model(before).push(
                    entry_or_blank(vecs[j as int].1@, i as int),
                ));
                assert(row_model(row@) =~= seq![(decimal_text(i as nat), Align::Center)]
                    + Seq::new((j + 1) as nat, |k: int| entry_or_blank(vecs[k].1@, i as int)));
            }
            j += 1;
        }
        table.push(row);
        i += 1;
    }
    let t = Table { table };
    proof {
        let m = vvec_model(vecs@);
        assert(t@.len() == m.len());
        assert forall|r: int| 0 <= r < t@.len() implies t@[r] == m[r] by {
            assert(t@[r] == row_model(t.table@[r]@));
        }
        assert(t@ =~= m);
    }
    t
}

/// The table of a grid: its rows, numbered, below a row that numbers the columns.
#[verifier::rlimit(40)]
pub fn vec2(title: &str, rows: &Vec<Vec<Cell>>) -> (t: Table)
    requires
        rows@.len() > 0,
        longest(grid_lens(rows@), rows@.len()) < usize::MAX,
    ensures
        t@ == vec2_model(title@, rows@),
{
    let w = longest_row(rows);
    let mut table: Vec<Vec<Cell>> = Vec::new();
    let mut head: Vec<Cell> = Vec::new();
    head.push(text_cell(title, Align::Left));
    proof {
        assert(row_model(head@) =~= seq![(title@, Align::Left)]);
    }
    push_numbers(&mut head, w);
    table.push(head);
    let mut j: usize = 0;
    while j < rows.len()
        invariant
            j <= rows.len(),
            w == longest(grid_lens(rows@), rows@.len()),
            w < usize::MAX,
            table@.len() == j + 1,
            row_model(table@[0]@) == seq![(title@, Align::Left)] + numbers(w as nat),
            forall|r: int|
                1 <= r <= j ==> row_model(#[trigger] table@[r]@) == seq![
                    (decimal_text((r - 1) as nat), Align::Center),
                ] + row_model(rows[r - 1]@) + blanks((w - rows[r - 1]@.len()) as nat),
        decreases rows.len() - j,
    {
        let mut row: Vec<Cell> = Vec::new();
        row.push(number_cell(j));
        proof {
            assert(row_model(row@) =~= seq![(decimal_text(j as nat), Align::Center)]);
            lemma_longest_bounds(grid_lens(rows@), rows@.len(), j as int);
        }
        push_cells(&mut row, &rows[j]);
        fill_up(&mut row, 1 + w);
        table.push(row);
        j += 1;
    }
    let t = Table { table };
    proof {
        let m = vec2_model(title@, rows@);
        assert(t@.len() == m.len());
        assert forall|r: int| 0 <= r < t@.len() implies t@[r] == m[r] by {
            assert(t@[r] == row_model(t.table@[r]@));
        }
        assert(t@ =~= m);
    }
    t
}

/// The table of a map, one row per entry below the title.
pub fn vmap(title: &str, entries: &Vec<(String, Cell)>) -> (t: Table)
    ensures
        t@ == vmap_model(title@, entries@),
{
    let mut table: Vec<Vec<Cell>> = Vec::new();
    let mut head: Vec<Cell> = Vec::new();
    head.push(empty_cell(Align::Left));
    head.push(text_cell(title, Align::Center));
    proof {
        assert(row_model(head@) =~= seq![blank(), (title@, Align::Center)]);
    }
    table.push(head);
    let mut i: usize = 0;
    while i < entries.len()
        invariant
            i <= entries.len(),
            table@.len() == i + 1,
            row_model(table@[0]@) == seq![blank(), (title@, Align::Center)],
            forall|r: int|
                1 <= r <= i ==> row_model(#[trigger] table@[r]@) == seq![
                    (entries[r - 1].0@, Align::Center),
                    cell_model(entries[r - 1].1),
                ],
        decreases entries.len() - i,
    {
        let mut row: Vec<Cell> = Vec::new();
        row.push(text_cell(entries[i].0.as_str(), Align::Center));
        row.push(copy_cell(&entries[i].1));
        proof {
            assert(row_model(row@) =~= seq![
                (entries[i as int].0@, Align::Center),
                cell_model(entries[i as int].1),
            ]);
        }
        table.push(row);
        i += 1;
    }
    let t = Table { table };
    proof {
        let m = vmap_model(title@, entries@);
        assert(t@.len() == m.len());
        assert forall|r: int| 0 <= r < t@.len() implies t@[r] == m[r] by {
            assert(t@[r] == row_model(t.table@[r]@));
        }
        assert(t@ =~= m);
    }
    t
}

/// The table of a map, one column per entry beside the title.
pub fn hmap(title: &str, entries: &Vec<(String, Cell)>) -> (t: Table)
    ensures
        t@ == hmap_model(title@, entries@),
{
    let mut keys: Vec<Cell> = Vec::new();
    keys.push(empty_cell(Align::Left));
    let mut values: Vec<Cell> = Vec::new();
    values.push(text_cell(title, Align::Left));
    let mut i: usize = 0;
    while i < entries.len()
        invariant
            i <= entries.len(),
            row_model(keys@) == seq![blank()] + Seq::new(
                i as nat,
                |k: int| (entries[k].0@, Align::Center),
            ),
            row_model(values@) == seq![(title@, Align::Left)] + Seq::new(
                i as nat,
                |k: int| cell_model(entries[k].1),
            ),
        decreases entries.len() - i,
    {
        let ghost kb = keys@;
        let ghost vb = values@;
        keys.push(text_cell(entries[i].0.as_str(), Align::Center));
        values.push(copy_cell(&entries[i].1));
        proof {
            assert(row_model(keys@) =~= row_model(kb).push((entries[i as int].0@, Align::Center)));
            assert(row_model(values@) =~= row_model(vb).push(cell_model(entries[i as int].1)));
            assert(row_model(keys@) =~= seq![blank()] + Seq::new(
                (i + 1) as nat,
                |k: int| (entries[k].0@, Align::Center),
            ));
            assert(row_model(values@) =~= seq![(title@, Align::Left)] + Seq::new(
                (i + 1) as nat,
                |k: int| cell_model(entries[k].1),
            ));
        }
        i += 1;
    }
    let mut table: Vec<Vec<Cell>> = Vec::new();
    table.push(keys);
    table.push(values);
    let t = Table { table };
    proof {
        assert(t@ =~= hmap_model(title@, entries@));
    }
    t
}

/// The two halves of a pair, each by reference.
pub fn deconstruct_ref_tuple<K, V>(pair: &(K, V)) -> (r: (&K, &V))
    ensures
        *r.0 == pair.0,
        *r.1 == pair.1,
{
    (&pair.0, &pair.1)
}

/// The marks for a sequence of flags: `#` for a set flag, `.` for a clear one.
pub open spec fn marks(flags: Seq<bool>) -> Seq<char> {
    Seq::new(flags.len(), |i: int| if flags[i] {
        '#'
    } else {
        '.'
    })
}

/// A sequence of flags as text: a mark for every flag between square brackets.
pub fn bools(flags: &Vec<bool>) -> (s: String)
    ensures
        s@ == seq!['['] + marks(flags@) + seq![']'],
{
    let mut s = String::new();
    push_char(&mut s, '[');
    let mut i: usize = 0;
    proof {
        assert(s@ =~= seq!['['] + marks(flags@.take(0)));
    }
    while i < flags.len()
        invariant
            i <= flags.len(),
            s@ == seq!['['] + marks(flags@.take(i as int)),
        decreases flags.len() - i,
    {
        let c = if flags[i] {
            '#'
        } else {
            '.'
        };
        push_char(&mut s, c);
        proof {
            assert(s@ =~= seq!['['] + marks(flags@.take(i + 1)));
        }
        i += 1;
    }
    proof {
        assert(flags@.take(flags.len() as int) =~= flags@);
    }
    push_char(&mut s, ']');
    proof {
        assert(s@ =~= seq!['['] + marks(flags@) + seq![']']);
    }
    s
}

/// The number of `&` characters that the text starts with.
pub open spec fn leading_ampersands(s: Seq<char>) -> nat
    decreases s.len(),
{
    if s.len() > 0 && s[0] == '&' {
        1 + leading_ampersands(s.drop_first())
    } else {
        0
    }
}

proof fn lemma_leading_step(s: Seq<char>, k: nat)
    requires
        k <= s.len(),
        forall|i: int| 0 <= i < k ==> s[i] == '&',
    ensures
        leading_ampersands(s) == k + leading_ampersands(s.subrange(k as int, s.len() as int)),
    decreases k,
{
    if k == 0 {
        assert(s.subrange(0, s.len() as int) =~= s);
    } else {
        let rest = s.drop_first();
        lemma_leading_step(rest, (k - 1) as nat);
        assert(rest.subrange(k - 1, rest.len() as int) =~= s.subrange(k as int, s.len() as int));
    }
}

/// The text without the `&` characters that it starts with.
pub fn remove_ampersand(s: &str) -> (r: &str)
    ensures
        r@ == s@.subrange(leading_ampersands(s@) as int, s@.len() as int),
{
    let n = s.unicode_len();
    let mut k: usize = 0;
    while k < n && s.get_char(k) == '&'
        invariant
            k <= n,
            n == s@.len(),
            forall|i: int| 0 <= i < k ==> s@[i] == '&',
        decreases n - k,
    {
        k += 1;
    }
    proof {
        lemma_leading_step(s@, k as nat);
        let rest = s@.subrange(k as int, s@.len() as int);
        assert(rest.len() == 0 || rest[0] != '&');
    }
    s.substring_char(k, n)
}

/// The number of bytes that a text takes in UTF-8, as the machine counts them.
pub open spec fn byte_len(text: Seq<char>) -> nat {
    (encode_utf8(text).len() as usize) as nat
}

/// The width of column `j` over the first `k` rows: the largest number of bytes of a text
/// in it, and at least 1.
pub open spec fn column_width(t: Seq<Seq<(Seq<char>, Align)>>, j: int, k: nat) -> nat
    decreases k,
{
    if k == 0 {
        0
    } else {
        let rest = column_width(t, j, (k - 1) as nat);
        let here = if byte_len(t[k - 1][j].0) >= 1 {
            byte_len(t[k - 1][j].0)
        } else {
            1
        };
        if here > rest {
            here
        } else {
            rest
        }
    }
}

/// The number of spaces before a text of `n` characters in a column of width `w`.
pub open spec fn pad_before(n: nat, w: nat, align: Align) -> nat {
    if n >= w {
        0
    } else {
        match align {
            Align::Left => 0,
            Align::Center => ((w - n) / 2) as nat,
            Align::Right => (w - n) as nat,
        }
    }
}

/// The number of spaces after a text of `n` characters in a column of width `w`.
pub open spec fn pad_after(n: nat, w: nat, align: Align) -> nat {
    if n >= w {
        0
    } else {
        (w - n - pad_before(n, w, align)) as nat
    }
}

/// One cell as text: a space, the text padded to the width of its column, and the mark
/// that ends the column, a bar after the first column and a space after the others.
pub open spec fn cell_text(cell: (Seq<char>, Align), w: nat, j: int) -> Seq<char> {
    Seq::<char>::empty() + " "@ + repeated(' ', pad_before(cell.0.len(), w, cell.1)) + cell.0
        + repeated(' ', pad_after(cell.0.len(), w, cell.1)) + (if j == 0 {
        " │"@
    } else {
        " "@
    })
}

/// The first `k` cells of a row as text.
pub open spec fn cells_text(
    t: Seq<Seq<(Seq<char>, Align)>>,
    i: int,
    k: nat,
) -> Seq<char>
    decreases k,
{
    if k == 0 {
        Seq::empty()
    } else {
        cells_text(t, i, (k - 1) as nat) + cell_text(
            t[i][k - 1],
            column_width(t, k - 1, t.len()),
            k - 1,
        )
    }
}

/// One row as text; the first row stands on a grey background.
pub open spec fn row_text(t: Seq<Seq<(Seq<char>, Align)>>, i: int) -> Seq<char> {
    Seq::<char>::empty() + (if i == 0 {
        "\x1b[48;2;127;127;127;37m"@
    } else {
        Seq::<char>::empty()
    }) + cells_text(t, i, t[i].len()) + (if i == 0 {
        "\x1b[0m"@
    } else {
        Seq::<char>::empty()
    }) + "\n"@
}

/// The first `k` rows as text.
pub open spec fn rows_text(t: Seq<Seq<(Seq<char>, Align)>>, k: nat) -> Seq<char>
    decreases k,
{
    if k == 0 {
        Seq::empty()
    } else {
        rows_text(t, (k - 1) as nat) + row_text(t, k - 1)
    }
}

/// Every row has as many cells as the first.
pub open spec fn rectangular(t: Seq<Seq<(Seq<char>, Align)>>) -> bool {
    t.len() > 0 && forall|i: int| 0 <= i < t.len() ==> (#[trigger] t[i]).len() == t[0].len()
}

impl Table {
    /// The width of column `j`.
    fn width_of(&self, j: usize) -> (w: usize)
        requires
            rectangular(self@),
            j < self@[0].len(),
        ensures
            w == column_width(self@, j as int, self@.len()),
    {
        let mut w: usize = 0;
        let mut i: usize = 0;
        while i < self.table.len()
            invariant
                i <= self.table@.len(),
                rectangular(self@),
                j < self@[0].len(),
                w == column_width(self@, j as int, i as nat),
            decreases self.table@.len() - i,
        {
            proof {
                assert(self@[i as int].len() == self@[0].len());
                assert(self@[i as int][j as int].0 == self.table@[i as int]@[j as int].text@);
            }
            let n = self.table[i][j].text.as_str().len();
            let here = if n >= 1 {
                n
            } else {
                1
            };
            if here > w {
                w = here;
            }
            i += 1;
        }
        w
    }

    /// One cell as text.
    fn render_cell(cell: &Cell, w: usize, j: usize) -> (s: String)
        ensures
            s@ == cell_text(cell_model(*cell), w as nat, j as int),
    {
        let n = cell.text.as_str().unicode_len();
        let (before, after) = if n >= w {
            (0, 0)
        } else {
            match cell.align {
                Align::Left => (0, w - n),
                Align::Center => ((w - n) / 2, w - n - (w - n) / 2),
                Align::Right => (w - n, 0),
            }
        };
        let mut s = String::new();
        s.append(" ");
        push_repeated(&mut s, ' ', before);
        s.append(cell.text.as_str());
        push_repeated(&mut s, ' ', after);
        if j == 0 {
            s.append(" │");
        } else {
            s.append(" ");
        }
        s
    }

    /// The table as text: one line per row, every column as wide as its longest text, the
    /// first row on a grey background.
    #[verifier::rlimit(40)]
    pub fn render(&self) -> (s: String)
        requires
            rectangular(self@),
        ensures
            s@ == rows_text(self@, self@.len()),
    {
        let cols = self.table[0].len();
        let mut widths: Vec<usize> = Vec::new();
        let mut j: usize = 0;
        while j < cols
            invariant
                j <= cols,
                cols == self@[0].len(),
                rectangular(self@),
                widths@.len() == j,
                forall|k: int|
                    0 <= k < j ==> #[trigger] widths[k] == column_width(self@, k, self@.len()),
            decreases cols - j,
        {
            widths.push(self.width_of(j));
            j += 1;
        }
        let mut s = String::new();
        let mut i: usize = 0;
        while i < self.table.len()
            invariant
                i <= self.table@.len(),
                cols == self@[0].len(),
                rectangular(self@),
                widths@.len() == cols,
                forall|k: int|
                    0 <= k < cols ==> #[trigger] widths[k] == column_width(self@, k, self@.len()),
                s@ == rows_text(self@, i as nat),
            decreases self.table@.len() - i,
        {
            let mut line = String::new();
            if i == 0 {
                line.append("\x1b[48;2;127;127;127;37m");
            } else {
                proof {
                    assert(line@ + Seq::<char>::empty() =~= line@);
                }
            }
            let mut cells = String::new();
            let mut j: usize = 0;
            proof {
                assert(self@[i as int].len() == cols);
            }
            while j < cols
                invariant
                    j <= cols,
                    i < self.table@.len(),
                    cols == self@[i as int].len(),
                    widths@.len() == cols,
                    forall|k: int|
                        0 <= k < cols ==> #[trigger] widths[k] == column_width(
                            self@,
                            k,
                            self@.len(),
                        ),
                    cells@ == cells_text(self@, i as int, j as nat),
                decreases cols - j,
            {
                proof {
                    assert(self@[i as int][j as int] == cell_model(self.table@[i as int]@[j as int]));
                }
                let cell = Table::render_cell(&self.table[i][j], widths[j], j);
                cells.append(cell.as_str());
                j += 1;
            }
            line.append(cells.as_str());
            if i == 0 {
                line.append("\x1b[0m");
            } else {
                proof {
                    assert(line@ + Seq::<char>::empty() =~= line@);
                }
            }
            line.append("\n");
            proof {
                assert(line@ == row_text(self@, i as int));
            }
            s.append(line.as_str());
            i += 1;
        }
        s
    }
}

/// The text with every occurrence of `from` replaced by `to`, looking for occurrences from
/// the left and going on behind each one found.
pub open spec fn replaced(s: Seq<char>, from: Seq<char>, to: Seq<char>) -> Seq<char>
    decreases s.len(),
{
    if from.len() == 0 || s.len() < from.len() {
        s
    } else if s.subrange(0, from.len() as int) == from {
        to + replaced(s.subrange(from.len() as int, s.len() as int), from, to)
    } else {
        seq![s[0]] + replaced(s.drop_first(), from, to)
    }
}

/// `str::replace`: all matches of a pattern, which are found from the left without overlap,
/// are replaced by another text. Stated for a pattern that is not empty.
#[verifier::external_body]
fn replace(s: &str, from: &str, to: &str) -> (r: String)
    requires
        from@.len() > 0,
    ensures
        r@ == replaced(s@, from@, to@),
{
    s.replace(from, to)
}

/// Whether the text begins with the given characters.
pub open spec fn begins_with(s: Seq<char>, p: Seq<char>) -> bool {
    p.len() <= s.len() && s.subrange(0, p.len() as int) == p
}

/// Whether the text ends with the given characters.
pub open spec fn finishes_with(s: Seq<char>, p: Seq<char>) -> bool {
    p.len() <= s.len() && s.subrange(s.len() - p.len(), s.len() as int) == p
}

/// The text without wrappers `Some(` ... `)` around it.
pub open spec fn unwrapped(s: Seq<char>) -> Seq<char>
    decreases s.len(),
{
    if begins_with(s, "Some("@) && "Some("@.len() == 5 && finishes_with(
        s.subrange(5, s.len() as int),
        ")"@,
    ) && ")"@.len() == 1 {
        unwrapped(s.subrange(5, s.len() - 1))
    } else {
        s
    }
}

/// The text without quotation marks around it, as long as more than two characters are left.
pub open spec fn unquoted(s: Seq<char>) -> Seq<char>
    decreases s.len(),
{
    if s.len() > 2 && s[0] == '"' && s[s.len() - 1] == '"' {
        unquoted(s.subrange(1, s.len() - 1))
    } else {
        s
    }
}

/// The text with the largest values of the integer types and `None` shortened to a star,
/// `true` to `#` and `false` to `.`.
pub open spec fn shortened(s: Seq<char>) -> Seq<char> {
    replaced(
        replaced(
            replaced(
                replaced(
                    replaced(
                        replaced(
                            replaced(
                                replaced(
                                    replaced(
                                        replaced(
                                            replaced(
                                                s,
                                                "340282366920938463463374607431768211455"@,
                                                "*"@,
                                            ),
                                            "170141183460469231731687303715884105727"@,
                                            "*"@,
                                        ),
                                        "18446744073709551615"@,
                                        "*"@,
                                    ),
                                    "9223372036854775807"@,
                                    "*"@,
                                ),
                                "-9223372036854775808"@,
                                "*"@,
                            ),
                            "4294967295"@,
                            "*"@,
                        ),
                        "2147483647"@,
                        "*"@,
                    ),
                    "-2147483648"@,
                    "*"@,
                ),
                "None"@,
                "*"@,
            ),
            "true"@,
            "#"@,
        ),
        "false"@,
        "."@,
    )
}

/// The tidied form of a text: extreme numbers and truth values shortened, wrappers and
/// quotation marks taken off.
pub open spec fn polished(raw: Seq<char>) -> Seq<char> {
    unquoted(unwrapped(shortened(raw)))
}

/// Whether the text begins with the given characters.
fn starts_with(s: &str, p: &str) -> (b: bool)
    ensures
        b == begins_with(s@, p@),
{
    let n = s.unicode_len();
    let m = p.unicode_len();
    if m > n {
        return false;
    }
    let mut i: usize = 0;
    while i < m
        invariant
            i <= m <= n,
            n == s@.len(),
            m == p@.len(),
            forall|k: int| 0 <= k < i ==> s@[k] == p@[k],
        decreases m - i,
    {
        if s.get_char(i) != p.get_char(i) {
            proof {
                assert(s@.subrange(0, m as int)[i as int] != p@[i as int]);
            }
            return false;
        }
        i += 1;
    }
    proof {
        assert(s@.subrange(0, m as int) =~= p@);
    }
    true
}

/// Tidies the text that a value gives of itself for a table: shortens extreme numbers and
/// truth values, and takes wrappers and quotation marks off.
#[verifier::rlimit(40)]
pub fn polish(raw: &str) -> (r: String)
    ensures
        r@ == polished(raw@),
{
    proof {
        reveal_strlit("340282366920938463463374607431768211455");
        reveal_strlit("170141183460469231731687303715884105727");
        reveal_strlit("18446744073709551615");
        reveal_strlit("9223372036854775807");
        reveal_strlit("-9223372036854775808");
        reveal_strlit("4294967295");
        reveal_strlit("2147483647");
        reveal_strlit("-2147483648");
        reveal_strlit("None");
        reveal_strlit("true");
        reveal_strlit("false");
        reveal_strlit("Some(");
        reveal_strlit(")");
    }
    let s = replace(raw, "340282366920938463463374607431768211455", "*");
    let s = replace(s.as_str(), "170141183460469231731687303715884105727", "*");
    let s = replace(s.as_str(), "18446744073709551615", "*");
    let s = replace(s.as_str(), "9223372036854775807", "*");
    let s = replace(s.as_str(), "-9223372036854775808", "*");
    let s = replace(s.as_str(), "4294967295", "*");
    let s = replace(s.as_str(), "2147483647", "*");
    let s = replace(s.as_str(), "-2147483648", "*");
    let s = replace(s.as_str(), "None", "*");
    let s = replace(s.as_str(), "true", "#");
    let s = replace(s.as_str(), "false", ".");
    let mut t: &str = s.as_str();
    let mut len = t.unicode_len();
    while starts_with(t, "Some(") && len >= 6 && t.get_char(len - 1) == ')'
        invariant
            len == t@.len(),
            "Some("@.len() == 5,
            ")"@.len() == 1,
            ")"@[0] == ')',
            unwrapped(t@) == unwrapped(s@),
        decreases len,
    {
        proof {
            let inner = t@.subrange(5, t@.len() as int);
            assert(inner.subrange(inner.len() - 1, inner.len() as int) =~= ")"@);
        }
        t = t.substring_char(5, len - 1);
        len = len - 6;
    }
    proof {
        let inner = t@.subrange(5, t@.len() as int);
        if begins_with(t@, "Some("@) && finishes_with(inner, ")"@) {
            assert(inner.subrange(inner.len() - 1, inner.len() as int)[0] == ')');
        }
        assert(unwrapped(t@) == t@);
    }
    let ghost base = t@;
    while len > 2 && t.get_char(0) == '"' && t.get_char(len - 1) == '"'
        invariant
            len == t@.len(),
            unquoted(t@) == unquoted(base),
        decreases len,
    {
        t = t.substring_char(1, len - 1);
        len = len - 2;
    }
    t.to_owned()
}

/// `format!` with `{:?}`: the text that a value gives of itself for debugging. Nothing is
/// claimed of it.
#[verifier::external_body]
fn debug_text<T: std::fmt::Debug>(t: &T) -> (s: String) {
    format!("{t:?}")
}

/// The text of a value for a cell of a table: what the value gives of itself for debugging,
/// tidied. Whatever that text is, the result is its tidied form.
pub fn format<T: std::fmt::Debug>(t: &T) -> (s: String)
    ensures
        exists|raw: Seq<char>| s@ == #[trigger] polished(raw),
{
    let raw = debug_text(t);
    let s = polish(raw.as_str());
    assert(s@ == polished(raw@));
    s
}

} // verus!
