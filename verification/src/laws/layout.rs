//! Laws of how sizes and rows are written.

use crate::layout::{
    as_double, double_step, heading, hundredths, line_of, nearest, plural_of, row_in, rows_in,
    section_of, size_text, widest,
};
use crate::text::{decimal, digit, left_in, right_in};
use vstd::prelude::*;

verus! {

// ---------------------------------------------------------------- rounding
/// Whether `q` is the integer closest to `n / d`, the even one of two that are equally
/// close.
pub open spec fn is_closest(q: nat, n: nat, d: nat) -> bool {
    let off = q * d - n;
    &&& -(d as int) <= 2 * off <= d
    &&& (2 * off == d || 2 * off == -(d as int)) ==> q % 2 == 0
}

/// Rounding gives the closest integer, and of two equally close ones the even one.
pub proof fn lemma_rounding(n: nat, d: nat, q: nat)
    requires
        d > 0,
    ensures
        is_closest(q, n, d) <==> nearest(n, d) == q,
{
    let p = (n / d) as int;
    let r = (n % d) as int;
    assert(n == p * d + r && 0 <= r < d) by (nonlinear_arith)
        requires
            d > 0,
            p == n as int / d as int,
            r == n as int % d as int,
    ;
    assert((p + 1) * d == p * d + d) by (nonlinear_arith);
    assert(q * d - n == (q - p) * d - r) by (nonlinear_arith)
        requires
            n == p * d + r,
    ;
    if q == p {
        assert((q - p) * d == 0) by (nonlinear_arith)
            requires
                q == p,
        ;
    } else if q == p + 1 {
        assert((q - p) * d == d) by (nonlinear_arith)
            requires
                q == p + 1,
        ;
    } else if q > p + 1 {
        assert((q - p) * d >= 2 * d) by (nonlinear_arith)
            requires
                q >= p + 2,
                d > 0,
        ;
    } else {
        assert((q - p) * d <= -(d as int)) by (nonlinear_arith)
            requires
                q <= p - 1,
                d > 0,
        ;
    }
}

/// Up to 2^53 every size is a double-precision number; from there on the distance between
/// neighbours doubles whenever the size does, and the closest one is taken.
pub proof fn lemma_doubles(n: nat, q: nat)
    ensures
        n < 0x20_0000_0000_0000 ==> double_step(n) == 1 && as_double(n) == n,
        n >= 0x10_0000_0000_0000 ==> double_step(2 * n) == 2 * double_step(n) && double_step(
            2 * n + 1,
        ) == 2 * double_step(n),
        is_closest(q, n, double_step(n)) ==> as_double(n) == q * double_step(n),
{
    assert((2 * n) / 2 == n && (2 * n + 1) / 2 == n);
    lemma_step_positive(n);
    lemma_rounding(n, double_step(n), q);
    if n < 0x20_0000_0000_0000 {
        lemma_rounding(n, 1, n);
        assert(n / 1 == n && n % 1 == 0);
    }
}

proof fn lemma_step_positive(n: nat)
    ensures
        double_step(n) >= 1,
    decreases n,
{
    if n >= 0x20_0000_0000_0000 {
        lemma_step_positive(n / 2);
    }
}

// ---------------------------------------------------------------- sizes
/// A size below a kilobyte is written in whole bytes.
pub proof fn lemma_size_in_bytes(bytes: nat)
    requires
        bytes < 1024,
    ensures
        size_text(bytes) == decimal(bytes) + " B"@,
{
    lemma_doubles(bytes, bytes);
}

/// From 1024 bytes on a size is written in kilobytes, from 1024 of those on in megabytes,
/// and from 1024 of those on in gigabytes: the closest number of hundredths, with two
/// digits after the point.
pub proof fn lemma_size_in_units(bytes: nat, q: nat)
    requires
        bytes < 0x20_0000_0000_0000,
    ensures
        ({
            let figure = decimal(q / 100) + seq!['.', digit(q / 10 % 10), digit(q % 10)];
            &&& 1024 <= bytes < 1024 * 1024 && is_closest(q, bytes * 100, 1024) ==> size_text(bytes)
                == figure + " KB"@
            &&& 1024 * 1024 <= bytes < 1024 * 1024 * 1024 && is_closest(
                q,
                bytes * 100,
                1024 * 1024,
            ) ==> size_text(bytes) == figure + " MB"@
            &&& 1024 * 1024 * 1024 <= bytes && is_closest(
                q,
                bytes * 100,
                1024 * 1024 * 1024,
            ) ==> size_text(bytes) == figure + " GB"@
        }),
{
    lemma_doubles(bytes, bytes);
    lemma_rounding(bytes * 100, 1024, q);
    lemma_rounding(bytes * 100, 1024 * 1024, q);
    lemma_rounding(bytes * 100, 1024 * 1024 * 1024, q);
}

/// A size beyond 2^53 bytes is written as that of the double-precision number closest to
/// it.
pub proof fn lemma_size_of_huge(bytes: nat, n: nat, q: nat)
    requires
        bytes >= 0x20_0000_0000_0000,
        is_closest(n, bytes, double_step(bytes)),
        is_closest(q, n * double_step(bytes) * 100, 1024 * 1024 * 1024),
    ensures
        size_text(bytes) == decimal(q / 100) + seq!['.', digit(q / 10 % 10), digit(q % 10)]
            + " GB"@,
{
    lemma_doubles(bytes, n);
    lemma_rounding(n * double_step(bytes) * 100, 1024 * 1024 * 1024, q);
    let step = double_step(bytes);
    lemma_half_at_most(bytes);
    assert(n * step >= bytes - step);
}

proof fn lemma_half_at_most(n: nat)
    requires
        n >= 0x20_0000_0000_0000,
    ensures
        2 * double_step(n) <= n,
    decreases n,
{
    if n / 2 >= 0x20_0000_0000_0000 {
        lemma_half_at_most(n / 2);
    } else {
        assert(double_step(n / 2) == 1);
        assert(double_step(n) == 2);
    }
}

// ---------------------------------------------------------------- rows
/// A line ends in a line break; a noun of which there is not exactly one ends in `s`.
pub proof fn lemma_lines_and_plurals(text: Seq<char>, n: nat)
    ensures
        line_of(text) == text + "\n"@,
        plural_of(1) == Seq::<char>::empty(),
        n != 1 ==> plural_of(n) == "s"@,
{
    reveal_strlit("\n");
    reveal_strlit("");
    assert(text.push('\n') == text + "\n"@);
    assert(""@ == Seq::<char>::empty());
}

/// A row is its label, spaces up to the width of the column and one more, and its size,
/// with spaces before it up to nine characters.
pub proof fn lemma_row(label: Seq<char>, bytes: nat, width: int, gap: nat, lead: nat)
    ensures
        label.len() + gap == width && lead + size_text(bytes).len() == 9 ==> row_in(
            label,
            bytes,
            width,
        ) == label + Seq::new(gap, |i: int| ' ') + " "@ + Seq::new(lead, |i: int| ' ') + size_text(
            bytes,
        ) + "\n"@,
        label.len() >= width && size_text(bytes).len() >= 9 ==> row_in(label, bytes, width)
            == label + " "@ + size_text(bytes) + "\n"@,
        row_in(label, bytes, width) == left_in(label, width) + " "@ + right_in(size_text(bytes), 9)
            + "\n"@,
{
    crate::laws::text::lemma_columns(label, width);
    crate::laws::text::lemma_columns(size_text(bytes), 9);
    lemma_lines_and_plurals(left_in(label, width) + " "@ + right_in(size_text(bytes), 9), 1);
    if label.len() + gap == width && lead + size_text(bytes).len() == 9 {
        assert(left_in(label, width) == label + Seq::new(gap, |i: int| ' '));
        assert(right_in(size_text(bytes), 9) == Seq::new(lead, |i: int| ' ') + size_text(bytes));
        assert(row_in(label, bytes, width) =~= label + Seq::new(gap, |i: int| ' ') + " "@
            + Seq::new(lead, |i: int| ' ') + size_text(bytes) + "\n"@);
    }
}

/// Rows stand one below the other, in order; the column is as wide as the longest label,
/// and no narrower than was asked for.
pub proof fn lemma_rows_steps(rows: Seq<(Seq<char>, u64)>, row: (Seq<char>, u64), width: int, n: nat)
    ensures
        rows_in(Seq::<(Seq<char>, u64)>::empty(), width) == Seq::<char>::empty(),
        rows_in(rows.push(row), width) == rows_in(rows, width) + row_in(
            row.0,
            row.1 as nat,
            width,
        ),
        widest(Seq::<(Seq<char>, u64)>::empty(), n) == n,
        row.0.len() > widest(rows, n) ==> widest(rows.push(row), n) == row.0.len(),
        row.0.len() <= widest(rows, n) ==> widest(rows.push(row), n) == widest(rows, n),
{
    assert(rows.push(row).drop_last() == rows);
}

/// A heading is its title, a rule of 36 strokes and an empty line.
pub proof fn lemma_heading(title: Seq<char>)
    ensures
        heading(title) == title + "\n"@ + "────────────────────────────────────"@ + "\n\n"@,
{
    reveal_strlit("\n");
    reveal_strlit("\n\n");
    reveal_strlit("");
    lemma_lines_and_plurals(title, 1);
    assert(heading(title) =~= title + "\n"@ + "────────────────────────────────────"@ + "\n\n"@);
}

/// A section is an empty line, a heading and its rows in a column of at least 22
/// characters. Without rows there is none.
pub proof fn lemma_section(title: Seq<char>, rows: Seq<(Seq<char>, u64)>)
    ensures
        rows.len() == 0 ==> section_of(title, rows) == Seq::<char>::empty(),
        rows.len() > 0 ==> section_of(title, rows) == "\n"@ + title + "\n"@
            + "────────────────────────────────────"@ + "\n\n"@ + rows_in(
            rows,
            widest(rows, 22) as int,
        ),
{
    reveal_strlit("\n");
    reveal_strlit("");
    lemma_heading(title);
    lemma_lines_and_plurals(Seq::empty(), 1);
    if rows.len() > 0 {
        let table = rows_in(rows, widest(rows, 22) as int);
        assert(section_of(title, rows) =~= line_of(""@) + heading(title) + table);
        assert(line_of(""@) =~= "\n"@);
        assert(section_of(title, rows) =~= "\n"@ + title + "\n"@
            + "────────────────────────────────────"@ + "\n\n"@ + table);
    }
}

} // verus!
