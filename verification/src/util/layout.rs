//! The text layout of a grid of squares, with the column letters above and
//! below and the row numbers on both sides.
use vstd::prelude::*;
use vstd::string::StringExecFns;

verus! {

/// The letter naming column `c`.
pub open spec fn col_char(c: int) -> char {
    (65 + c) as char
}

/// The character of the digit `d`.
pub open spec fn digit_char(d: int) -> char {
    (48 + d) as char
}

/// The number `r` (below 100) written in two characters, aligned right.
pub open spec fn num_right(r: int) -> Seq<char> {
    if r < 10 {
        seq![' ', digit_char(r)]
    } else {
        seq![digit_char(r / 10), digit_char(r % 10)]
    }
}

/// The number `r` (below 100) written in two characters, aligned left.
pub open spec fn num_left(r: int) -> Seq<char> {
    if r < 10 {
        seq![digit_char(r), ' ']
    } else {
        seq![digit_char(r / 10), digit_char(r % 10)]
    }
}

/// Three spaces, then the letters of the first `n` columns, each with a
/// space on either side.
pub open spec fn col_headers(n: int) -> Seq<char>
    decreases n,
{
    if n <= 0 {
        seq![' ', ' ', ' ']
    } else {
        col_headers(n - 1) + seq![' ', col_char(n - 1), ' ']
    }
}

/// The texts of the first `n` squares of row `r`, one after another.
pub open spec fn cells_text(cells: Seq<Seq<char>>, r: int, n: int) -> Seq<char>
    decreases n,
{
    if n <= 0 {
        Seq::empty()
    } else {
        cells_text(cells, r, n - 1) + cells[r * 15 + n - 1]
    }
}

/// Row `r`: its number aligned right, a space, the texts of its squares, a
/// space, its number aligned left, and the end of the line.
pub open spec fn row_text(cells: Seq<Seq<char>>, r: int) -> Seq<char> {
    num_right(r) + seq![' '] + cells_text(cells, r, 15) + seq![' '] + num_left(r) + seq!['\n']
}

/// The first `n` rows.
pub open spec fn rows_text(cells: Seq<Seq<char>>, n: int) -> Seq<char>
    decreases n,
{
    if n <= 0 {
        Seq::empty()
    } else {
        rows_text(cells, n - 1) + row_text(cells, n - 1)
    }
}

/// The whole grid: the column letters, the end of the line, the fifteen
/// rows, and the column letters again.
pub open spec fn grid_layout(cells: Seq<Seq<char>>) -> Seq<char> {
    col_headers(15) + seq!['\n'] + rows_text(cells, 15) + col_headers(15)
}

/// Appends the character `c` to `s` (`String::push`).
#[verifier::external_body]
fn push_char(s: &mut String, c: char)
    ensures
        final(s)@ == old(s)@.push(c),
{
    s.push(c);
}

/// Appends a number below 100 in two characters, aligned right or left.
fn push_num(s: &mut String, r: usize, right: bool)
    requires
        r < 100,
    ensures
        final(s)@ == old(s)@ + if right { num_right(r as int) } else { num_left(r as int) },
{
    let tens: u8 = (r / 10) as u8;
    let ones: u8 = (r % 10) as u8;
    let ones_char = (48u8 + ones) as char;
    if r < 10 {
        if right {
            push_char(s, ' ');
            push_char(s, ones_char);
        } else {
            push_char(s, ones_char);
            push_char(s, ' ');
        }
    } else {
        push_char(s, (48u8 + tens) as char);
        push_char(s, ones_char);
    }
    proof {
        let n = if right { num_right(r as int) } else { num_left(r as int) };
        assert(final(s)@ =~= old(s)@ + n);
    }
}

/// Appends the column letters, as [`col_headers`] lays them out.
fn push_col_headers(s: &mut String)
    ensures
        final(s)@ == old(s)@ + col_headers(15),
{
    push_char(s, ' ');
    push_char(s, ' ');
    push_char(s, ' ');
    assert(s@ =~= old(s)@ + col_headers(0));
    let mut c: usize = 0;
    while c < 15
        invariant
            c <= 15,
            s@ == old(s)@ + col_headers(c as int),
        decreases 15 - c,
    {
        push_char(s, ' ');
        push_char(s, (65u8 + c as u8) as char);
        push_char(s, ' ');
        c = c + 1;
        assert(s@ =~= old(s)@ + col_headers(c as int));
    }
}

/// Lays out a grid of fifteen rows of fifteen squares as text: `cells`
/// holds the text of each square, row by row.
pub fn grid_text(cells: &Vec<String>) -> (r: String)
    requires
        cells@.len() == 225,
    ensures
        r@ == grid_layout(cells@.map_values(|t: String| t@)),
{
    let ghost texts = cells@.map_values(|t: String| t@);
    let mut s = String::new();
    push_col_headers(&mut s);
    push_char(&mut s, '\n');
    assert(s@ =~= col_headers(15) + seq!['\n'] + rows_text(texts, 0));
    let mut row: usize = 0;
    while row < 15
        invariant
            row <= 15,
            cells@.len() == 225,
            texts == cells@.map_values(|t: String| t@),
            s@ == col_headers(15) + seq!['\n'] + rows_text(texts, row as int),
        decreases 15 - row,
    {
        let ghost before = s@;
        push_num(&mut s, row, true);
        push_char(&mut s, ' ');
        let ghost start = s@;
        assert(s@ =~= start + cells_text(texts, row as int, 0));
        let mut col: usize = 0;
        while col < 15
            invariant
                col <= 15,
                row < 15,
                cells@.len() == 225,
                texts == cells@.map_values(|t: String| t@),
                s@ == start + cells_text(texts, row as int, col as int),
            decreases 15 - col,
        {
            let t = cells[row * 15 + col].as_str();
            s.append(t);
            col = col + 1;
            assert(s@ =~= start + cells_text(texts, row as int, col as int));
        }
        push_char(&mut s, ' ');
        push_num(&mut s, row, false);
        push_char(&mut s, '\n');
        row = row + 1;
        assert(s@ =~= col_headers(15) + seq!['\n'] + rows_text(texts, row as int));
    }
    push_col_headers(&mut s);
    s
}

} // verus!
