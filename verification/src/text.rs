//! The text form of a matrix, for reading by eye.

use vstd::prelude::*;
use vstd::string::StringExecFns;
use crate::matrix::{Matrix, lemma_cells};

verus! {

/// The character of the decimal digit `d`.
pub open spec fn digit_char(d: int) -> char {
    if d == 0 {
        '0'
    } else if d == 1 {
        '1'
    } else if d == 2 {
        '2'
    } else if d == 3 {
        '3'
    } else if d == 4 {
        '4'
    } else if d == 5 {
        '5'
    } else if d == 6 {
        '6'
    } else if d == 7 {
        '7'
    } else if d == 8 {
        '8'
    } else {
        '9'
    }
}

/// The decimal digits of `n`, without leading zeros.
pub open spec fn decimal(n: nat) -> Seq<char>
    decreases n,
{
    if n < 10 {
        seq![digit_char(n as int)]
    } else {
        decimal(n / 10).push(digit_char((n % 10) as int))
    }
}

/// The decimal form of `v`, with a minus sign where it is negative.
pub open spec fn signed_decimal(v: int) -> Seq<char> {
    if v < 0 {
        seq!['-'] + decimal((-v) as nat)
    } else {
        decimal(v as nat)
    }
}

/// The field of one id: its decimal form, padded on the left with a space to
/// two characters, and a space after it.
pub open spec fn field_text(v: int) -> Seq<char> {
    let d = signed_decimal(v);
    if d.len() < 2 {
        seq![' '] + d + seq![' ']
    } else {
        d + seq![' ']
    }
}

/// The fields of one row, left to right.
pub open spec fn row_text(row: Seq<i32>) -> Seq<char>
    decreases row.len(),
{
    if row.len() == 0 {
        Seq::empty()
    } else {
        row_text(row.drop_last()) + field_text(row.last() as int)
    }
}

/// The rows of `m`, top to bottom, each ended by a line feed.
pub open spec fn rows_text(m: Matrix) -> Seq<char>
    decreases m.len(),
{
    if m.len() == 0 {
        Seq::empty()
    } else {
        rows_text(m.drop_last()) + row_text(m.last()) + seq!['\n']
    }
}

/// The text of `m`: its rows, or the line `[ ]` where it has no row or its
/// first row has no cell.
pub open spec fn matrix_text(m: Matrix) -> Seq<char> {
    if m.len() == 0 || m[0].len() == 0 {
        seq!['[', ' ', ']', '\n']
    } else {
        rows_text(m)
    }
}

/// A number has one decimal digit exactly when it is below ten.
pub proof fn lemma_decimal_len(n: nat)
    ensures
        decimal(n).len() >= 1,
        decimal(n).len() < 2 <==> n < 10,
    decreases n,
{
    if n >= 10 {
        lemma_decimal_len(n / 10);
    }
}

/// The one-character string of the digit `d`.
fn digit_str(d: u64) -> (s: &'static str)
    requires
        d < 10,
    ensures
        s@ == seq![digit_char(d as int)],
{
    proof {
        reveal_strlit("0");
        reveal_strlit("1");
        reveal_strlit("2");
        reveal_strlit("3");
        reveal_strlit("4");
        reveal_strlit("5");
        reveal_strlit("6");
        reveal_strlit("7");
        reveal_strlit("8");
        reveal_strlit("9");
    }
    let s = if d == 0 {
        "0"
    } else if d == 1 {
        "1"
    } else if d == 2 {
        "2"
    } else if d == 3 {
        "3"
    } else if d == 4 {
        "4"
    } else if d == 5 {
        "5"
    } else if d == 6 {
        "6"
    } else if d == 7 {
        "7"
    } else if d == 8 {
        "8"
    } else {
        "9"
    };
    assert(s@ =~= seq![digit_char(d as int)]);
    s
}

/// Appends the decimal digits of `n` to `out`.
fn push_decimal(out: &mut String, n: u64)
    ensures
        final(out)@ == old(out)@ + decimal(n as nat),
    decreases n,
{
    if n >= 10 {
        push_decimal(out, n / 10);
    }
    out.append(digit_str(n % 10));
    assert(out@ =~= old(out)@ + decimal(n as nat));
}

/// Appends the field of `v` to `out`.
fn push_field(out: &mut String, v: i32)
    ensures
        final(out)@ == old(out)@ + field_text(v as int),
{
    proof {
        reveal_strlit(" ");
        reveal_strlit("-");
        lemma_decimal_len(
            if v < 0 {
                (-v) as nat
            } else {
                v as nat
            },
        );
    }
    if 0 <= v && v < 10 {
        out.append(" ");
    }
    if v < 0 {
        out.append("-");
        let wide: i64 = v as i64;
        push_decimal(out, (-wide) as u64);
    } else {
        push_decimal(out, v as u64);
    }
    out.append(" ");
    assert(out@ =~= old(out)@ + field_text(v as int));
}

/// The text of `matrix`: one line for each row, each id right-aligned in a
/// field of two characters and followed by a space.
pub fn render_matrix(matrix: &Vec<Vec<i32>>) -> (text: String)
    ensures
        text@ == matrix_text(matrix.deep_view()),
{
    let ghost m = matrix.deep_view();
    proof {
        lemma_cells(matrix);
    }
    if matrix.is_empty() || matrix[0].is_empty() {
        proof {
            reveal_strlit("[ ]\n");
        }
        let text = String::from_str("[ ]\n");
        assert(text@ =~= matrix_text(m));
        return text;
    }
    let mut out = String::new();
    assert(m.take(0) =~= Seq::<Seq<i32>>::empty());
    for r in 0..matrix.len()
        invariant
            m == matrix.deep_view(),
            out@ == rows_text(m.take(r as int)),
    {
        proof {
            lemma_cells(matrix);
        }
        let row = &matrix[r];
        let ghost line = m[r as int];
        let ghost above = out@;
        assert(line.take(0) =~= Seq::<i32>::empty());
        for c in 0..row.len()
            invariant
                line == row@,
                out@ == above + row_text(line.take(c as int)),
        {
            push_field(&mut out, row[c]);
            proof {
                assert(line.take(c + 1).drop_last() =~= line.take(c as int));
                assert(line.take(c + 1).last() == row@[c as int]);
            }
        }
        proof {
            reveal_strlit("\n");
            assert(line.take(row@.len() as int) =~= line);
            assert(m.take(r + 1).drop_last() =~= m.take(r as int));
            assert(m.take(r + 1).last() == line);
        }
        out.append("\n");
        assert(out@ =~= rows_text(m.take(r + 1)));
    }
    assert(m.take(matrix.len() as int) =~= m);
    out
}

} // verus!
