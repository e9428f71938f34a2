//! How figures are laid out as lines of text.

use crate::text::{
    decimal, digit, left_in, push_decimal, push_left, push_right, right_in, views,
};
use vstd::prelude::*;

verus! {

pub const RULE: &'static str = "────────────────────────────────────";

pub const WIDE_RULE: &'static str = "────────────────────────────────────────";

/// The width of the column that labels stand in.
pub const LABEL_WIDTH: usize = 22;

/// The width of the column that crate names stand in.
pub const CRATE_WIDTH: usize = 30;

// ---------------------------------------------------------------- lines
/// `text` as a line of its own.
pub open spec fn line_of(text: Seq<char>) -> Seq<char> {
    text.push('\n')
}

/// Appends `text` as a line of its own.
pub fn line(out: &mut String, text: &str)
    ensures
        final(out)@ == old(out)@ + line_of(text@),
{
    out.append(text);
    out.push('\n');
    assert(out@ == old(out)@ + line_of(text@));
}

/// The ending of a noun of which there are `n`.
pub open spec fn plural_of(n: nat) -> Seq<char> {
    if n == 1 {
        ""@
    } else {
        "s"@
    }
}

pub fn plural(n: usize) -> (ending: &'static str)
    ensures
        ending@ == plural_of(n as nat),
{
    if n == 1 {
        ""
    } else {
        "s"
    }
}

// ---------------------------------------------------------------- sizes
/// `n / d` rounded to the nearest integer, halves to the even one.
pub open spec fn nearest(n: nat, d: nat) -> nat {
    let q = n / d;
    let r = n % d;
    if 2 * r > d || (2 * r == d && q % 2 == 1) {
        q + 1
    } else {
        q
    }
}

/// The distance between neighbouring double-precision numbers around `n`, where it
/// is at least one.
pub open spec fn double_step(n: nat) -> nat
    decreases n,
{
    if n < 0x20_0000_0000_0000 {
        1
    } else {
        2 * double_step(n / 2)
    }
}

/// The double-precision number closest to `n`.
pub open spec fn as_double(n: nat) -> nat {
    nearest(n, double_step(n)) * double_step(n)
}

/// A number of hundredths with its point.
pub open spec fn hundredths(n: nat) -> Seq<char> {
    decimal(n / 100) + seq!['.', digit(n / 10 % 10), digit(n % 10)]
}

/// A size in the largest unit of which it holds at least one, to two decimals from
/// kilobytes on. Units are binary: a kilobyte is 1024 bytes.
pub open spec fn size_text(bytes: nat) -> Seq<char> {
    let n = as_double(bytes);
    if n >= 0x4000_0000 {
        hundredths(nearest(n * 100, 0x4000_0000)) + " GB"@
    } else if n >= 0x10_0000 {
        hundredths(nearest(n * 100, 0x10_0000)) + " MB"@
    } else if n >= 0x400 {
        hundredths(nearest(n * 100, 0x400)) + " KB"@
    } else {
        decimal(bytes) + " B"@
    }
}

fn round(n: u128, d: u128) -> (q: u128)
    requires
        0 < d <= 0x1_0000_0000_0000_0000,
        n <= 0x1_0000_0000_0000_0000_0000,
    ensures
        q == nearest(n as nat, d as nat),
{
    let q: u128 = n / d;
    let r: u128 = n % d;
    proof {
        assert(q <= n) by (nonlinear_arith)
            requires
                q == n / d,
                d > 0,
        ;
    }
    if 2 * r > d || (2 * r == d && q % 2 == 1) {
        q + 1
    } else {
        q
    }
}

proof fn lemma_double_step(n: nat)
    ensures
        1 <= double_step(n),
        n < 0x20_0000_0000_0000 ==> double_step(n) == 1,
        n >= 0x20_0000_0000_0000 ==> double_step(n) <= n,
        n >= 0x20_0000_0000_0000 ==> double_step(n) == 2 * double_step(n / 2),
    decreases n,
{
    if n >= 0x20_0000_0000_0000 {
        lemma_double_step(n / 2);
    }
}

fn to_double(bytes: u64) -> (n: u128)
    ensures
        n == as_double(bytes as nat),
        n <= 2 * bytes,
{
    let mut step: u128 = 1;
    let mut left: u64 = bytes;
    while left >= 0x20_0000_0000_0000
        invariant
            left <= bytes,
            step * double_step(left as nat) == double_step(bytes as nat),
            step >= 1,
            step * left <= bytes,
        decreases left,
    {
        proof {
            lemma_double_step(left as nat);
            let half = double_step(left as nat / 2);
            assert(step * (2 * half) == (step * 2) * half) by (nonlinear_arith);
            assert((step * 2) * (left / 2) <= step * left) by (nonlinear_arith)
                requires
                    step >= 1,
                    left >= 0,
            ;
            assert(step * 2 <= step * left) by (nonlinear_arith)
                requires
                    left >= 2,
                    step >= 1,
            ;
        }
        step = step * 2;
        left = left / 2;
    }
    proof {
        lemma_double_step(left as nat);
        assert(step * 1 == step) by (nonlinear_arith);
        if left > 0 {
            assert(step <= step * left) by (nonlinear_arith)
                requires
                    left >= 1,
                    step >= 1,
            ;
        }
    }
    assert(step == double_step(bytes as nat));
    assert(step == 1 || step <= bytes) by {
        lemma_double_step(bytes as nat);
    }
    let q: u128 = round(bytes as u128, step);
    proof {
        lemma_nearest_bound(bytes as nat, step as nat);
    }
    q * step
}

proof fn lemma_nearest_bound(n: nat, d: nat)
    requires
        d == 1 || 1 <= d <= n,
    ensures
        nearest(n, d) * d <= 2 * n,
{
    let q = n / d;
    let r = n % d;
    assert(n == q * d + r && 0 <= r < d) by (nonlinear_arith)
        requires
            d >= 1,
            q == n / d,
            r == n % d,
    ;
    assert((q + 1) * d == q * d + d) by (nonlinear_arith);
    if d == 1 {
        assert(r == 0);
    }
}

fn push_hundredths(out: &mut String, n: u128)
    ensures
        final(out)@ == old(out)@ + hundredths(n as nat),
{
    push_decimal(out, n / 100);
    out.push('.');
    out.push((48 + (n / 10 % 10) as u8) as char);
    out.push((48 + (n % 10) as u8) as char);
    assert(out@ == old(out)@ + hundredths(n as nat));
}

/// A size in the largest unit of which it holds at least one.
pub fn format_size(bytes: u64) -> (text: String)
    ensures
        text@ == size_text(bytes as nat),
{
    let n: u128 = to_double(bytes);
    let mut out = String::new();
    if n >= 0x4000_0000 {
        push_hundredths(&mut out, round(n * 100, 0x4000_0000));
        out.append(" GB");
    } else if n >= 0x10_0000 {
        push_hundredths(&mut out, round(n * 100, 0x10_0000));
        out.append(" MB");
    } else if n >= 0x400 {
        push_hundredths(&mut out, round(n * 100, 0x400));
        out.append(" KB");
    } else {
        push_decimal(&mut out, bytes as u128);
        out.append(" B");
    }
    assert(out@ == size_text(bytes as nat));
    out
}

// ---------------------------------------------------------------- rows
/// A label and a size on one line, the label in a column of `width` characters.
pub open spec fn row_in(label: Seq<char>, bytes: nat, width: int) -> Seq<char> {
    line_of(left_in(label, width) + " "@ + right_in(size_text(bytes), 9))
}

/// The rows `rows`, one line each.
pub open spec fn rows_in(rows: Seq<(Seq<char>, u64)>, width: int) -> Seq<char>
    decreases rows.len(),
{
    if rows.len() == 0 {
        Seq::empty()
    } else {
        rows_in(rows.drop_last(), width) + row_in(rows.last().0, rows.last().1 as nat, width)
    }
}

/// The length of the longest label, and at least `least`.
pub open spec fn widest<N>(rows: Seq<(Seq<char>, N)>, least: nat) -> nat
    decreases rows.len(),
{
    if rows.len() == 0 {
        least
    } else {
        let others = widest(rows.drop_last(), least);
        if rows.last().0.len() > others {
            rows.last().0.len()
        } else {
            others
        }
    }
}

/// A headed table of labels and sizes; nothing at all where there are no rows.
pub open spec fn section_of(title: Seq<char>, rows: Seq<(Seq<char>, u64)>) -> Seq<char> {
    if rows.len() == 0 {
        Seq::empty()
    } else {
        line_of(""@) + heading(title) + rows_in(rows, widest(rows, LABEL_WIDTH as nat) as int)
    }
}

/// A title, a rule under it and an empty line.
pub open spec fn heading(title: Seq<char>) -> Seq<char> {
    line_of(title) + line_of(RULE@) + line_of(""@)
}

/// No label is wider than the column.
pub proof fn lemma_widest<N>(rows: Seq<(Seq<char>, N)>, least: nat)
    ensures
        least <= widest(rows, least),
        forall|i: int| 0 <= i < rows.len() ==> (#[trigger] rows[i]).0.len() <= widest(rows, least),
        widest(rows, least) == least || exists|i: int|
            0 <= i < rows.len() && (#[trigger] rows[i]).0.len() == widest(rows, least),
    decreases rows.len(),
{
    if rows.len() > 0 {
        let rest = rows.drop_last();
        lemma_widest(rest, least);
        assert forall|i: int| 0 <= i < rows.len() implies (#[trigger] rows[i]).0.len() <= widest(
            rows,
            least,
        ) by {
            if i < rest.len() {
                assert(rest[i] == rows[i]);
            }
        }
        if widest(rows, least) == widest(rest, least) && widest(rest, least) != least {
            let i = choose|i: int|
                0 <= i < rest.len() && (#[trigger] rest[i]).0.len() == widest(rest, least);
            assert(rows[i] == rest[i]);
        } else {
            assert(rows[rows.len() - 1] == rows.last());
        }
    }
}

/// Appends a label and a size on one line, the label in a column of `width` characters.
pub fn row_at(out: &mut String, label: &str, bytes: u64, width: usize)
    ensures
        final(out)@ == old(out)@ + row_in(label@, bytes as nat, width as int),
{
    push_left(out, label, width);
    out.append(" ");
    let size = format_size(bytes);
    push_right(out, size.as_str(), 9);
    out.push('\n');
    assert(out@ == old(out)@ + row_in(label@, bytes as nat, width as int));
}

/// Appends a label and a size on one line.
pub fn row(out: &mut String, label: &str, bytes: u64)
    ensures
        final(out)@ == old(out)@ + row_in(label@, bytes as nat, LABEL_WIDTH as int),
{
    row_at(out, label, bytes, LABEL_WIDTH);
}

/// Appends the rows `rows`, one line each.
pub fn push_rows(out: &mut String, rows: &[(String, u64)], width: usize)
    ensures
        final(out)@ == old(out)@ + rows_in(views(rows@), width as int),
{
    let ghost before = out@;
    let ghost all = views(rows@);
    let mut i: usize = 0;
    assert(before + rows_in(all.take(0), width as int) == before);
    while i < rows.len()
        invariant
            i <= rows@.len(),
            all == views(rows@),
            out@ == before + rows_in(all.take(i as int), width as int),
        decreases rows@.len() - i,
    {
        row_at(out, rows[i].0.as_str(), rows[i].1, width);
        proof {
            assert(all.take(i + 1).drop_last() == all.take(i as int));
            assert(all.take(i + 1).last() == (rows@[i as int].0@, rows@[i as int].1));
            assert(out@ == before + rows_in(all.take(i + 1), width as int));
        }
        i += 1;
    }
    assert(all.take(i as int) == all);
}

/// The width of a column that holds every label of `rows`.
pub fn section_width(rows: &[(String, u64)]) -> (width: usize)
    ensures
        width == widest(views(rows@), LABEL_WIDTH as nat),
{
    let ghost all = views(rows@);
    let mut width: usize = LABEL_WIDTH;
    let mut i: usize = 0;
    while i < rows.len()
        invariant
            i <= rows@.len(),
            all == views(rows@),
            width == widest(all.take(i as int), LABEL_WIDTH as nat),
        decreases rows@.len() - i,
    {
        proof {
            assert(all.take(i + 1).drop_last() == all.take(i as int));
            assert(all.take(i + 1).last() == (rows@[i as int].0@, rows@[i as int].1));
        }
        let n: usize = rows[i].0.as_str().unicode_len();
        if n > width {
            width = n;
        }
        i += 1;
    }
    assert(all.take(i as int) == all);
    width
}

/// Appends an empty line, a title, a rule and an empty line.
pub fn push_heading(out: &mut String, title: &str)
    ensures
        final(out)@ == old(out)@ + (line_of(""@) + heading(title@)),
{
    line(out, "");
    line(out, title);
    line(out, RULE);
    line(out, "");
    assert(out@ == old(out)@ + (line_of(""@) + heading(title@)));
}

/// Appends a headed table of labels and sizes; nothing where there are no rows.
pub fn section(out: &mut String, title: &str, rows: &[(String, u64)])
    ensures
        final(out)@ == old(out)@ + section_of(title@, views(rows@)),
{
    if rows.len() == 0 {
        assert(out@ == old(out)@ + section_of(title@, views(rows@)));
        return;
    }
    push_heading(out, title);
    push_rows(out, rows, section_width(rows));
    assert(out@ == old(out)@ + section_of(title@, views(rows@)));
}

} // verus!
