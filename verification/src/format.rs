//! Fixed-width rendering of query results.
//!
//! Each output column is as wide as the longest of its field name and the
//! values it shows.  A row holds one cell per column, right-aligned, with
//! a leading pipe and " |" after each cell; a horizontal rule underlines
//! the header.  Which columns appear, and their order, is the caller's
//! choice.

use vstd::prelude::*;
use vstd::string::*;
use crate::metrics::str_eq;

verus! {

pub open spec fn spaces(n: nat) -> Seq<char> {
    Seq::new(n, |i: int| ' ')
}

/// A value right-aligned in its column; a value wider than the column
/// keeps its own length.
pub open spec fn cell_spec(v: Seq<char>, width: nat) -> Seq<char> {
    if v.len() >= width {
        v
    } else {
        spaces((width - v.len()) as nat) + v
    }
}

/// The larger of the field name's length and every shown value's length.
pub open spec fn max_len(name: Seq<char>, vals: Seq<Seq<char>>) -> nat
    decreases vals.len(),
{
    if vals.len() == 0 {
        name.len()
    } else {
        let rest = max_len(name, vals.drop_last());
        if vals.last().len() > rest {
            vals.last().len()
        } else {
            rest
        }
    }
}

/// One rendered row: a pipe, then each cell padded to its column's width
/// between a space and " |".
pub open spec fn row_spec(vals: Seq<Seq<char>>, widths: Seq<usize>) -> Seq<char>
    decreases vals.len(),
{
    if vals.len() == 0 {
        seq!['|']
    } else {
        row_spec(vals.drop_last(), widths.drop_last()) + seq![' '] + cell_spec(
            vals.last(),
            widths.last() as nat,
        ) + seq![' ', '|']
    }
}

/// Right-aligns one value in its column.
pub fn pad_cell(s: &str, width: usize) -> (r: String)
    ensures
        r@ == cell_spec(s@, width as nat),
{
    let len = s.unicode_len();
    let mut r = String::new();
    if len < width {
        let pad = width - len;
        let mut i: usize = 0;
        while i < pad
            invariant
                0 <= i <= pad,
                r@ == spaces(i as nat),
            decreases pad - i,
        {
            r.push(' ');
            proof {
                assert(r@ =~= spaces((i + 1) as nat));
            }
            i += 1;
        }
    }
    r.append(s);
    proof {
        if len >= width {
            assert(r@ =~= s@);
        }
        assert(r@ =~= cell_spec(s@, width as nat));
    }
    r
}

/// The width of one column.
pub fn column_width(name: &str, vals: &Vec<String>) -> (w: usize)
    ensures
        w == max_len(name@, vals@.map_values(|s: String| s@)),
{
    let ghost m = vals@.map_values(|s: String| s@);
    let mut w = name.unicode_len();
    let mut i: usize = 0;
    while i < vals.len()
        invariant
            0 <= i <= vals@.len(),
            m == vals@.map_values(|s: String| s@),
            w == max_len(name@, m.take(i as int)),
        decreases vals@.len() - i,
    {
        let l = vals[i].as_str().unicode_len();
        proof {
            assert(m.take(i as int + 1).drop_last() =~= m.take(i as int));
            assert(m.take(i as int + 1).last() == m[i as int]);
            assert(m[i as int] == vals@[i as int]@);
        }
        if l > w {
            w = l;
        }
        i += 1;
    }
    proof {
        assert(m.take(m.len() as int) =~= m);
    }
    w
}

/// Renders one row from the cell values and the column widths.
pub fn render_row(vals: &Vec<String>, widths: &Vec<usize>) -> (r: String)
    requires
        vals@.len() == widths@.len(),
    ensures
        r@ == row_spec(vals@.map_values(|s: String| s@), widths@),
{
    let ghost m = vals@.map_values(|s: String| s@);
    let mut r = String::new();
    r.push('|');
    proof {
        assert(r@ =~= row_spec(m.take(0), widths@.take(0)));
    }
    let mut i: usize = 0;
    while i < vals.len()
        invariant
            0 <= i <= vals@.len(),
            vals@.len() == widths@.len(),
            m == vals@.map_values(|s: String| s@),
            r@ == row_spec(m.take(i as int), widths@.take(i as int)),
        decreases vals@.len() - i,
    {
        r.push(' ');
        let cell = pad_cell(vals[i].as_str(), widths[i]);
        r.append(cell.as_str());
        r.push(' ');
        r.push('|');
        proof {
            assert(m.take(i as int + 1).drop_last() =~= m.take(i as int));
            assert(widths@.take(i as int + 1).drop_last() =~= widths@.take(i as int));
            assert(m.take(i as int + 1).last() == m[i as int]);
            assert(m[i as int] == vals@[i as int]@);
            assert(widths@.take(i as int + 1).last() == widths@[i as int]);
            assert(r@ =~= row_spec(m.take(i as int + 1), widths@.take(i as int + 1)));
        }
        i += 1;
    }
    proof {
        assert(m.take(m.len() as int) =~= m);
        assert(widths@.take(widths@.len() as int) =~= widths@);
    }
    r
}

/// The horizontal rule under the header.
pub fn rule_line(width: usize) -> (r: String)
    ensures
        r@ == Seq::new(width as nat, |i: int| '-'),
{
    let mut r = String::new();
    let mut i: usize = 0;
    while i < width
        invariant
            0 <= i <= width,
            r@ == Seq::new(i as nat, |j: int| '-'),
        decreases width - i,
    {
        r.push('-');
        proof {
            assert(r@ =~= Seq::new((i + 1) as nat, |j: int| '-'));
        }
        i += 1;
    }
    r
}

/// The value a row shows for one field: the value of its last field of
/// that name, or the empty string when it has none.
pub open spec fn value_in_row(fs: Seq<crate::index::Field>, name: Seq<char>) -> Seq<char>
    decreases fs.len(),
{
    if fs.len() == 0 {
        Seq::empty()
    } else if fs.last().name@ == name {
        fs.last().value@
    } else {
        value_in_row(fs.drop_last(), name)
    }
}

/// The cells one field contributes over a list of result rows, an empty
/// cell where a row has no field of the name.
pub fn column_values(name: &str, rows: &Vec<Vec<crate::index::Field>>) -> (r: Vec<String>)
    ensures
        r@.len() == rows@.len(),
        forall|i: int| 0 <= i < rows@.len() ==> (#[trigger] r@[i])@ == value_in_row(rows@[i]@, name@),
{
    let mut r: Vec<String> = Vec::new();
    let mut i: usize = 0;
    while i < rows.len()
        invariant
            0 <= i <= rows@.len(),
            r@.len() == i,
            forall|k: int| 0 <= k < i ==> (#[trigger] r@[k])@ == value_in_row(rows@[k]@, name@),
        decreases rows@.len() - i,
    {
        let row = &rows[i];
        let mut cell = String::new();
        let mut j: usize = 0;
        while j < row.len()
            invariant
                0 <= j <= row@.len(),
                *row == rows@[i as int],
                cell@ == value_in_row(row@.take(j as int), name@),
            decreases row@.len() - j,
        {
            proof {
                assert(row@.take(j as int + 1).drop_last() =~= row@.take(j as int));
                assert(row@.take(j as int + 1).last() == row@[j as int]);
            }
            if str_eq(row[j].name.as_str(), name) {
                cell = row[j].value.as_str().to_owned();
            }
            j += 1;
        }
        proof {
            assert(row@.take(row@.len() as int) =~= row@);
        }
        r.push(cell);
        i += 1;
    }
    r
}

} // verus!
