//! The terminal-width-aware column layout. A listing is printed on a
//! single line when everything fits, in a column-major grid otherwise,
//! and one name per line when no terminal width is known.

use vstd::prelude::*;
use vstd::string::StrSliceExecFns;
use vstd::string::StringExecFns;
use vstd::arithmetic::div_mod::{lemma_basic_div, lemma_fundamental_div_mod};
use vstd::arithmetic::mul::{lemma_mul_inequality, lemma_mul_is_distributive_add};
use crate::text::{pad_right, spaces, push_spaces};

verus! {

/// Length of the longest name, in characters; zero for no names.
pub open spec fn max_name_len(names: Seq<Seq<char>>) -> nat
    decreases names.len(),
{
    if names.len() == 0 {
        0
    } else if names.last().len() > max_name_len(names.drop_last()) {
        names.last().len()
    } else {
        max_name_len(names.drop_last())
    }
}

pub proof fn lemma_max_name_len_ge(names: Seq<Seq<char>>, i: int)
    requires
        0 <= i < names.len(),
    ensures
        names[i].len() <= max_name_len(names),
    decreases names.len(),
{
    if i < names.len() - 1 {
        lemma_max_name_len_ge(names.drop_last(), i);
    }
}

/// The width of the whole listing rendered on one line: every name
/// followed by the two separating spaces.
pub open spec fn rendered_width(names: Seq<Seq<char>>) -> nat
    decreases names.len(),
{
    if names.len() == 0 {
        0
    } else {
        rendered_width(names.drop_last()) + names.last().len() + 2
    }
}

/// The single-line rendering: each name followed by two spaces.
pub open spec fn single_line_of(names: Seq<Seq<char>>) -> Seq<char>
    decreases names.len(),
{
    if names.len() == 0 {
        Seq::empty()
    } else {
        single_line_of(names.drop_last()) + names.last() + spaces(2)
    }
}

pub open spec fn ceil_div(a: nat, b: nat) -> nat {
    a / b + if a % b == 0 {
        0nat
    } else {
        1nat
    }
}

proof fn lemma_ceil_div_bounds(a: nat, b: nat)
    requires
        a > 0,
        b > 0,
    ensures
        ceil_div(a, b) >= 1,
        (ceil_div(a, b) - 1) * b < a,
        a <= ceil_div(a, b) * b,
{
    let q = a as int / b as int;
    let r = a as int % b as int;
    lemma_fundamental_div_mod(a as int, b as int);
    lemma_mul_is_distributive_add(b as int, q - 1, 1);
    lemma_mul_is_distributive_add(b as int, q, 1);
    assert(a == b * q + r);
    if r == 0 {
        assert(q >= 1) by {
            if q <= 0 {
                lemma_mul_inequality(q, 0, b as int);
            }
        }
        assert((q - 1) * b == b * (q - 1)) by (nonlinear_arith);
        assert(q * b == b * q) by (nonlinear_arith);
    } else {
        assert((q + 1 - 1) * b == b * q) by (nonlinear_arith);
        assert((q + 1) * b == b * (q + 1)) by (nonlinear_arith);
        assert(q >= 0) by {
            if q < 0 {
                lemma_mul_inequality(q, -1, b as int);
            }
        }
    }
}

/// How many columns the terminal width allows: the conventional
/// `width / (longest + 1)`, but at least one.
pub open spec fn grid_columns(names: Seq<Seq<char>>, w: nat) -> nat {
    let c = w / (max_name_len(names) + 1);
    if c == 0 {
        1
    } else {
        c
    }
}

/// Rows in the grid: names are spread over the columns, column-major.
pub open spec fn grid_rows(names: Seq<Seq<char>>, w: nat) -> nat {
    ceil_div(names.len(), grid_columns(names, w))
}

/// Columns that actually receive a name.
pub open spec fn grid_used_columns(names: Seq<Seq<char>>, w: nat) -> nat {
    ceil_div(names.len(), grid_rows(names, w))
}

/// The names standing in column `j` when each column holds `rows` names.
pub open spec fn column_of(names: Seq<Seq<char>>, rows: nat, j: nat) -> Seq<Seq<char>> {
    let n = names.len();
    let lo = if j * rows < n {
        j * rows
    } else {
        n
    };
    let hi = if j * rows + rows < n {
        j * rows + rows
    } else {
        n
    };
    names.subrange(lo as int, hi as int)
}

/// Each column is as wide as its widest member.
pub open spec fn grid_col_width(names: Seq<Seq<char>>, rows: nat, j: nat) -> nat {
    max_name_len(column_of(names, rows, j))
}

/// One grid cell: the name at row `i` of column `j`, padded to the
/// column's width, then the two separating spaces. Empty when the cell
/// is past the last name.
pub open spec fn grid_cell(names: Seq<Seq<char>>, rows: nat, i: nat, j: nat) -> Seq<char> {
    let m = j * rows + i;
    if m < names.len() {
        pad_right(names[m as int], grid_col_width(names, rows, j)) + spaces(2)
    } else {
        Seq::empty()
    }
}

/// Row `i` of the grid, reading the first `j` columns.
pub open spec fn grid_row_upto(names: Seq<Seq<char>>, rows: nat, i: nat, j: nat) -> Seq<char>
    decreases j,
{
    if j == 0 {
        Seq::empty()
    } else {
        grid_row_upto(names, rows, i, (j - 1) as nat) + grid_cell(names, rows, i, (j - 1) as nat)
    }
}

/// Row `i` of the rendered grid for terminal width `w`.
pub open spec fn grid_row_of(names: Seq<Seq<char>>, w: nat, i: nat) -> Seq<char> {
    grid_row_upto(names, grid_rows(names, w), i, grid_used_columns(names, w))
}

/// Everything the column layout can produce, line by line: nothing for an
/// empty listing; one name per line when the width is unknown; one line
/// when the whole listing fits; the grid otherwise.
pub open spec fn spec_render_filenames(names: Seq<Seq<char>>, width: Option<usize>) -> Seq<
    Seq<char>,
> {
    if names.len() == 0 {
        Seq::empty()
    } else {
        match width {
            Option::None => names,
            Option::Some(w) => {
                if rendered_width(names) <= w as nat {
                    seq![single_line_of(names)]
                } else {
                    Seq::new(
                        grid_rows(names, w as nat),
                        |i: int| grid_row_of(names, w as nat, i as nat),
                    )
                }
            },
        }
    }
}

/// Law: single-line mode is chosen exactly when the total rendered width
/// fits the terminal. This lemma gives one direction of the choice;
/// `lemma_grid_mode` gives the other.
pub proof fn lemma_single_line_mode(names: Seq<Seq<char>>, w: usize)
    requires
        names.len() > 0,
        rendered_width(names) <= w as nat,
    ensures
        spec_render_filenames(names, Some(w)) == seq![single_line_of(names)],
{
}

/// Law: when the total rendered width exceeds the terminal, the grid is
/// chosen, with one line per row.
pub proof fn lemma_grid_mode(names: Seq<Seq<char>>, w: usize)
    requires
        names.len() > 0,
        rendered_width(names) > w as nat,
    ensures
        spec_render_filenames(names, Some(w)) == Seq::new(
            grid_rows(names, w as nat),
            |i: int| grid_row_of(names, w as nat, i as nat),
        ),
        grid_rows(names, w as nat) >= 1,
{
    lemma_ceil_div_bounds(names.len(), grid_columns(names, w as nat));
}

/// Law: no grid column is declared narrower than one of its members. The
/// member at row `i` of column `j` fits the column's width.
pub proof fn lemma_grid_column_wide_enough(names: Seq<Seq<char>>, rows: nat, i: nat, j: nat)
    requires
        rows > 0,
        i < rows,
        j * rows + i < names.len(),
    ensures
        names[(j * rows + i) as int].len() <= grid_col_width(names, rows, j),
{
    let n = names.len();
    let col = column_of(names, rows, j);
    let lo = j * rows;
    assert(col[i as int] == names[(lo + i) as int]);
    lemma_max_name_len_ge(col, i as int);
}

/// Length of the longest name in a listing (zero when it is empty), the
/// figure the grid's column count is derived from.
#[verifier::loop_isolation(false)]
pub fn longest_len(v: &Vec<String>) -> (r: usize)
    ensures
        r as nat == max_name_len(v.deep_view()),
{
    let ghost names = v.deep_view();
    let mut r: usize = 0;
    let mut i: usize = 0;
    proof {
        assert(names.take(0) =~= Seq::<Seq<char>>::empty());
    }
    while i < v.len()
        invariant
            i <= v.len(),
            r as nat == max_name_len(names.take(i as int)),
        decreases v.len() - i,
    {
        let l = v[i].as_str().unicode_len();
        if l > r {
            r = l;
        }
        proof {
            assert(names.take(i + 1).drop_last() =~= names.take(i as int));
            assert(names.take(i + 1).last() == names[i as int]);
        }
        i = i + 1;
    }
    proof {
        assert(names.take(v.len() as int) =~= names);
    }
    r
}

/// Decide whether the whole listing fits on a single terminal line.
/// The running total saturates just above the terminal width, so it can
/// never overflow, however long the names are.
#[verifier::loop_isolation(false)]
fn single_line_fits(v: &Vec<String>, w: usize) -> (r: bool)
    ensures
        r == (rendered_width(v.deep_view()) <= w as nat),
{
    let ghost names = v.deep_view();
    let cap: u128 = (w as u128) + 1;
    let mut total: u128 = 0;
    let mut i: usize = 0;
    proof {
        assert(names.take(0) =~= Seq::<Seq<char>>::empty());
    }
    while i < v.len()
        invariant
            i <= v.len(),
            total as nat == (if rendered_width(names.take(i as int)) > cap as nat {
                cap as nat
            } else {
                rendered_width(names.take(i as int))
            }),
            total <= cap,
        decreases v.len() - i,
    {
        let l = v[i].as_str().unicode_len();
        let cand = total + (l as u128) + 2;
        total = if cand > cap {
            cap
        } else {
            cand
        };
        proof {
            assert(names.take(i + 1).drop_last() =~= names.take(i as int));
            assert(names.take(i + 1).last() == names[i as int]);
        }
        i = i + 1;
    }
    proof {
        assert(names.take(v.len() as int) =~= names);
    }
    total <= w as u128
}

/// Each name on a line of its own: the fallback when no terminal width
/// is known.
#[verifier::loop_isolation(false)]
fn names_one_per_line(v: &Vec<String>) -> (lines: Vec<String>)
    ensures
        lines.deep_view() == v.deep_view(),
{
    let ghost names = v.deep_view();
    let mut lines: Vec<String> = Vec::new();
    let mut i: usize = 0;
    proof {
        assert(lines.deep_view() =~= names.take(0));
    }
    while i < v.len()
        invariant
            i <= v.len(),
            lines.deep_view() == names.take(i as int),
        decreases v.len() - i,
    {
        let ghost pre = lines.deep_view();
        lines.push(v[i].clone());
        proof {
            assert forall|k: int| 0 <= k < lines.deep_view().len() implies lines.deep_view()[k]
                == names.take(i + 1)[k] by {
                if k < pre.len() {
                    assert(lines.deep_view()[k] == pre[k]);
                } else {
                    assert(lines.deep_view()[k] == names[i as int]);
                }
            }
            assert(lines.deep_view() =~= names.take(i + 1));
        }
        i = i + 1;
    }
    proof {
        assert(names.take(v.len() as int) =~= names);
    }
    lines
}

/// The single-line rendering of the whole listing.
#[verifier::loop_isolation(false)]
fn build_single_line(v: &Vec<String>) -> (line: String)
    ensures
        line@ == single_line_of(v.deep_view()),
{
    let ghost names = v.deep_view();
    let mut line = String::new();
    let mut i: usize = 0;
    proof {
        assert(line@ =~= single_line_of(names.take(0)));
    }
    while i < v.len()
        invariant
            i <= v.len(),
            line@ == single_line_of(names.take(i as int)),
        decreases v.len() - i,
    {
        line.append(v[i].as_str());
        push_spaces(&mut line, 2);
        proof {
            assert(names.take(i + 1).drop_last() =~= names.take(i as int));
            assert(names.take(i + 1).last() == names[i as int]);
        }
        i = i + 1;
    }
    proof {
        assert(names.take(v.len() as int) =~= names);
    }
    line
}

/// The widths of the first `used` grid columns, each the length of its
/// longest member.
#[verifier::loop_isolation(false)]
fn compute_col_widths(v: &Vec<String>, rows: usize, used: usize) -> (widths: Vec<usize>)
    requires
        rows >= 1,
        used >= 1,
        v.deep_view().len() > 0,
        (used - 1) * rows < v.deep_view().len(),
    ensures
        widths@.len() == used,
        forall|q: int|
            0 <= q < used ==> #[trigger] widths@[q] as nat == grid_col_width(
                v.deep_view(),
                rows as nat,
                q as nat,
            ),
{
    let ghost names = v.deep_view();
    let n = v.len();
    let mut widths: Vec<usize> = Vec::new();
    let mut j: usize = 0;
    while j < used
        invariant
            j <= used,
            widths@.len() == j,
            forall|q: int|
                0 <= q < j ==> #[trigger] widths@[q] as nat == grid_col_width(
                    names,
                    rows as nat,
                    q as nat,
                ),
        decreases used - j,
    {
        proof {
            lemma_mul_inequality(j as int, used as int - 1, rows as int);
        }
        let base: usize = j * rows;
        let ghost col = column_of(names, rows as nat, j as nat);
        let mut cw: usize = 0;
        let mut i: usize = 0;
        proof {
            assert(col.take(0) =~= Seq::<Seq<char>>::empty());
        }
        while i < rows && i < n - base
            invariant
                i <= rows,
                i as int <= col.len(),
                cw as nat == max_name_len(col.take(i as int)),
            decreases rows - i,
        {
            let l = v[base + i].as_str().unicode_len();
            if l > cw {
                cw = l;
            }
            proof {
                assert(col.take(i + 1).drop_last() =~= col.take(i as int));
                assert(col[i as int] == names[(base + i) as int]);
            }
            i = i + 1;
        }
        proof {
            assert(i as int == col.len());
            assert(col.take(col.len() as int) =~= col);
        }
        widths.push(cw);
        j = j + 1;
    }
    widths
}

/// One rendered grid row.
#[verifier::loop_isolation(false)]
fn build_grid_row(v: &Vec<String>, rows: usize, used: usize, widths: &Vec<usize>, i: usize) -> (line:
    String)
    requires
        rows >= 1,
        used >= 1,
        i < rows,
        v.deep_view().len() > 0,
        (used - 1) * rows < v.deep_view().len(),
        widths@.len() == used,
        forall|q: int|
            0 <= q < used ==> #[trigger] widths@[q] as nat == grid_col_width(
                v.deep_view(),
                rows as nat,
                q as nat,
            ),
    ensures
        line@ == grid_row_upto(v.deep_view(), rows as nat, i as nat, used as nat),
{
    let ghost names = v.deep_view();
    let n = v.len();
    let mut line = String::new();
    let mut j: usize = 0;
    proof {
        assert(line@ =~= grid_row_upto(names, rows as nat, i as nat, 0));
    }
    while j < used
        invariant
            j <= used,
            line@ == grid_row_upto(names, rows as nat, i as nat, j as nat),
        decreases used - j,
    {
        proof {
            lemma_mul_inequality(j as int, used as int - 1, rows as int);
        }
        let base: usize = j * rows;
        let ghost m = base + i;
        if i < n - base {
            let name = &v[base + i];
            let l = name.as_str().unicode_len();
            let cwj = widths[j];
            proof {
                lemma_grid_column_wide_enough(names, rows as nat, i as nat, j as nat);
            }
            let ghost before = line@;
            line.append(name.as_str());
            if l < cwj {
                push_spaces(&mut line, cwj - l);
            }
            push_spaces(&mut line, 2);
            proof {
                if l < cwj {
                    assert(pad_right(names[m as int], cwj as nat) =~= names[m as int] + spaces(
                        (cwj - l) as nat,
                    ));
                } else {
                    assert(pad_right(names[m as int], cwj as nat) =~= names[m as int]);
                }
                assert(line@ =~= before + (pad_right(names[m as int], cwj as nat) + spaces(2)));
            }
        } else {
            proof {
                assert(grid_cell(names, rows as nat, i as nat, j as nat) =~= Seq::<char>::empty());
                assert(line@ + Seq::<char>::empty() =~= line@);
            }
        }
        j = j + 1;
    }
    line
}

/// Arrange the names for the terminal: everything on one line when it
/// fits in `term_width` columns, the column-major grid otherwise, and one
/// name per line when the width is unknown. Returns the output lines.
#[verifier::loop_isolation(false)]
pub fn render_filenames(v: &Vec<String>, term_width: Option<usize>) -> (lines: Vec<String>)
    ensures
        lines.deep_view() == spec_render_filenames(v.deep_view(), term_width),
{
    let ghost names = v.deep_view();
    let n = v.len();
    if n == 0 {
        let lines: Vec<String> = Vec::new();
        proof {
            assert(lines.deep_view() =~= spec_render_filenames(names, term_width));
        }
        return lines;
    }
    let w = match term_width {
        Option::None => {
            return names_one_per_line(v);
        },
        Option::Some(w) => w,
    };
    if single_line_fits(v, w) {
        let mut lines: Vec<String> = Vec::new();
        let line = build_single_line(v);
        lines.push(line);
        proof {
            assert(lines.deep_view() =~= seq![single_line_of(names)]);
        }
        return lines;
    }
    // Grid mode.
    let maxlen = longest_len(v);
    let cols: usize = if maxlen >= w {
        proof {
            lemma_basic_div(w as int, maxlen as int + 1);
        }
        1
    } else {
        let c = w / (maxlen + 1);
        if c == 0 {
            1
        } else {
            c
        }
    };
    proof {
        assert(cols as nat == grid_columns(names, w as nat));
        lemma_ceil_div_bounds(n as nat, cols as nat);
        lemma_fundamental_div_mod(n as int, cols as int);
        lemma_mul_inequality(1, cols as int, n as int / cols as int);
    }
    let rows: usize = n / cols + (if n % cols != 0 {
        1
    } else {
        0
    });
    proof {
        assert(rows as nat == grid_rows(names, w as nat));
        lemma_ceil_div_bounds(n as nat, rows as nat);
        lemma_fundamental_div_mod(n as int, rows as int);
        lemma_mul_inequality(1, rows as int, n as int / rows as int);
    }
    let used: usize = n / rows + (if n % rows != 0 {
        1
    } else {
        0
    });
    proof {
        assert(used as nat == grid_used_columns(names, w as nat));
        assert((used - 1) * rows < n);
    }
    let widths = compute_col_widths(v, rows, used);
    let mut lines: Vec<String> = Vec::new();
    let mut i: usize = 0;
    while i < rows
        invariant
            i <= rows,
            lines@.len() == i,
            forall|q: int|
                0 <= q < i ==> #[trigger] lines.deep_view()[q] == grid_row_of(
                    names,
                    w as nat,
                    q as nat,
                ),
        decreases rows - i,
    {
        let line = build_grid_row(v, rows, used, &widths, i);
        let ghost pre = lines.deep_view();
        lines.push(line);
        proof {
            assert forall|k: int| 0 <= k < lines.deep_view().len() implies lines.deep_view()[k]
                == grid_row_of(names, w as nat, k as nat) by {
                if k < pre.len() {
                    assert(lines.deep_view()[k] == pre[k]);
                } else {
                    assert(lines.deep_view()[k] == line@);
                }
            }
        }
        i = i + 1;
    }
    proof {
        assert(lines.deep_view() =~= Seq::new(
            grid_rows(names, w as nat),
            |q: int| grid_row_of(names, w as nat, q as nat),
        ));
    }
    lines
}

/// Relies on `term_size::dimensions`: the size in character cells of the
/// terminal the process is attached to, or `None` when there is none to
/// ask. The source returns a width only when it is non-zero.
#[verifier::external_body]
pub(crate) fn terminal_width() -> (r: Option<usize>)
    ensures
        r matches Some(w) ==> w > 0,
{
    match term_size::dimensions() {
        Some((w, _h)) => Some(w),
        None => None,
    }
}

/// Arrange the names for the terminal the process is attached to, asking
/// it for its width once, as `render_filenames` does for a known width.
pub fn render_filenames_to_terminal(v: &Vec<String>) -> (lines: Vec<String>)
    ensures
        exists|w: Option<usize>|
            lines.deep_view() == #[trigger] spec_render_filenames(v.deep_view(), w),
{
    let tw = terminal_width();
    let lines = render_filenames(v, tw);
    proof {
        assert(lines.deep_view() == spec_render_filenames(v.deep_view(), tw));
    }
    lines
}

} // verus!
