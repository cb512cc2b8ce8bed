//! The plain-text rendering of a category mapping.
use vstd::prelude::*;
use crate::models::TypeLineCounter;

verus! {

/// Start of a row, before the category.
pub const ROW_TYPE: &'static str = "TYPE: ";

/// Between the category and its count.
pub const ROW_COUNT: &'static str = " | TOTAL COUNT: ";

/// Between the count and the byte total.
pub const ROW_BYTES: &'static str = " | TOTAL BYTES: ";

/// End of a row.
pub const ROW_END: &'static str = "\n";

/// The character of decimal digit `d`.
pub open spec fn digit_char(d: nat) -> char {
    (('0' as u8) + d) as char
}

/// The decimal digits of `n`, most significant first, without leading zeros.
pub open spec fn decimal_digits(n: nat) -> Seq<char>
    decreases n,
{
    if n < 10 {
        seq![digit_char(n)]
    } else {
        decimal_digits(n / 10).push(digit_char(n % 10))
    }
}

/// One row of the plain table.
pub open spec fn lean_row(e: (String, TypeLineCounter)) -> Seq<char> {
    ROW_TYPE@ + e.0@ + ROW_COUNT@ + decimal_digits(e.1.count as nat) + ROW_BYTES@ + decimal_digits(
        e.1.bytes as nat,
    ) + ROW_END@
}

/// The plain table: one row per entry, in order.
pub open spec fn lean_text(entries: Seq<(String, TypeLineCounter)>) -> Seq<char>
    decreases entries.len(),
{
    if entries.len() == 0 {
        Seq::empty()
    } else {
        lean_text(entries.drop_last()) + lean_row(entries.last())
    }
}

/// Relies on `String::push_str`: appends `t` to `s`.
#[verifier::external_body]
fn push_str(s: &mut String, t: &str)
    ensures
        final(s)@ == old(s)@ + t@,
{
    s.push_str(t);
}

/// Relies on `ToString::to_string` through `usize`'s `Display`: the decimal
/// digits of `n`.
#[verifier::external_body]
fn decimal(n: usize) -> (r: String)
    ensures
        r@ == decimal_digits(n as nat),
{
    n.to_string()
}

/// The plain table of `entries`: for each, `TYPE: <category> | TOTAL COUNT:
/// <count> | TOTAL BYTES: <bytes>` and a line terminator.
pub fn lean_table(entries: &Vec<(String, TypeLineCounter)>) -> (r: String)
    ensures
        r@ == lean_text(entries@),
{
    let mut table = String::new();
    let mut i: usize = 0;
    while i < entries.len()
        invariant
            i <= entries@.len(),
            table@ == lean_text(entries@.subrange(0, i as int)),
        decreases entries@.len() - i,
    {
        push_str(&mut table, ROW_TYPE);
        push_str(&mut table, entries[i].0.as_str());
        push_str(&mut table, ROW_COUNT);
        let count = decimal(entries[i].1.count);
        push_str(&mut table, count.as_str());
        push_str(&mut table, ROW_BYTES);
        let bytes = decimal(entries[i].1.bytes);
        push_str(&mut table, bytes.as_str());
        push_str(&mut table, ROW_END);
        proof {
            let next = entries@.subrange(0, i + 1);
            assert(next.drop_last() =~= entries@.subrange(0, i as int));
            assert(next.last() == entries@[i as int]);
            assert(table@ =~= lean_text(next));
        }
        i = i + 1;
    }
    assert(entries@.subrange(0, i as int) =~= entries@);
    table
}

} // verus!
