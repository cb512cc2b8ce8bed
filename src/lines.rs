//! The mathematical model of an input: its lines, the category of each line
//! and the tally of a sequence of lines.
use vstd::prelude::*;
use crate::json::json_string_field;
use crate::models::add_to;

verus! {

/// The line terminator.
pub const NEWLINE: u8 = 10;

/// The pieces that splitting `s` at every terminator gives, terminators
/// left out. There is always at least one piece; an input that ends with a
/// terminator ends with an empty piece.
pub open spec fn split_lines(s: Seq<u8>) -> Seq<Seq<u8>>
    decreases s.len(),
{
    if s.len() == 0 {
        seq![Seq::<u8>::empty()]
    } else {
        let p = split_lines(s.drop_last());
        if s.last() == NEWLINE {
            p.push(Seq::<u8>::empty())
        } else {
            p.update(p.len() - 1, p.last().push(s.last()))
        }
    }
}

/// Whether `s` is empty or ends with a terminator.
pub open spec fn terminated(s: Seq<u8>) -> bool {
    s.len() == 0 || s.last() == NEWLINE
}

/// The records of a terminated input: its pieces but the empty one after
/// the last terminator.
pub open spec fn records(s: Seq<u8>) -> Seq<Seq<u8>> {
    split_lines(s).drop_last()
}

/// The name of the discriminant field.
pub open spec fn type_field() -> Seq<char> {
    seq!['t', 'y', 'p', 'e']
}

/// The category of lines that are no JSON object with a string discriminant.
pub open spec fn error_label() -> Seq<char> {
    seq!['E', 'R', 'R', 'O', 'R']
}

/// The category of one line.
pub open spec fn line_key(line: Seq<u8>) -> Seq<char> {
    match json_string_field(line, type_field()) {
        Some(v) => v,
        None => error_label(),
    }
}

/// What a line contributes: its category and its length with its terminator.
pub open spec fn line_item(line: Seq<u8>) -> (Seq<char>, nat) {
    (line_key(line), line.len() + 1)
}

/// The contributions of a sequence of lines.
pub open spec fn line_items(lines: Seq<Seq<u8>>) -> Seq<(Seq<char>, nat)> {
    lines.map_values(|l: Seq<u8>| line_item(l))
}

/// The mapping `m` after adding each contribution of `items` in turn.
pub open spec fn fold_items(m: Map<Seq<char>, (nat, nat)>, items: Seq<(Seq<char>, nat)>) -> Map<
    Seq<char>,
    (nat, nat),
>
    decreases items.len(),
{
    if items.len() == 0 {
        m
    } else {
        add_to(fold_items(m, items.drop_last()), items.last().0, items.last().1)
    }
}

/// The category mapping of a sequence of lines.
pub open spec fn tally(lines: Seq<Seq<u8>>) -> Map<Seq<char>, (nat, nat)> {
    fold_items(Map::empty(), line_items(lines))
}

/// How many contributions of `items` fall into category `k`.
pub open spec fn item_count(items: Seq<(Seq<char>, nat)>, k: Seq<char>) -> nat
    decreases items.len(),
{
    if items.len() == 0 {
        0
    } else {
        item_count(items.drop_last(), k) + if items.last().0 == k {
            1nat
        } else {
            0nat
        }
    }
}

/// How many bytes the contributions of `items` in category `k` add up to.
pub open spec fn item_bytes(items: Seq<(Seq<char>, nat)>, k: Seq<char>) -> nat
    decreases items.len(),
{
    if items.len() == 0 {
        0
    } else {
        item_bytes(items.drop_last(), k) + if items.last().0 == k {
            items.last().1
        } else {
            0nat
        }
    }
}

/// Splitting gives at least one piece.
pub proof fn lemma_split_nonempty(s: Seq<u8>)
    ensures
        split_lines(s).len() >= 1,
    decreases s.len(),
{
    if s.len() > 0 {
        lemma_split_nonempty(s.drop_last());
    }
}

/// The bytes that all of `items` add up to.
pub open spec fn items_total(items: Seq<(Seq<char>, nat)>) -> nat
    decreases items.len(),
{
    if items.len() == 0 {
        0
    } else {
        items_total(items.drop_last()) + items.last().1
    }
}

/// The tally of `k` in `m`, zero where `m` has no entry for it.
pub open spec fn entry_or_zero(m: Map<Seq<char>, (nat, nat)>, k: Seq<char>) -> (nat, nat) {
    if m.contains_key(k) {
        m[k]
    } else {
        (0, 0)
    }
}

/// Folding contributions into a mapping adds, category by category, their
/// count and their bytes.
pub proof fn lemma_fold_key(m: Map<Seq<char>, (nat, nat)>, items: Seq<(Seq<char>, nat)>, k: Seq<char>)
    ensures
        fold_items(m, items).contains_key(k) == (m.contains_key(k) || item_count(items, k) > 0),
        entry_or_zero(fold_items(m, items), k) == (
            entry_or_zero(m, k).0 + item_count(items, k),
            entry_or_zero(m, k).1 + item_bytes(items, k),
        ),
    decreases items.len(),
{
    if items.len() > 0 {
        lemma_fold_key(m, items.drop_last(), k);
    }
}

/// Counts and bytes of a concatenation are the sums of those of its parts.
pub proof fn lemma_items_concat(a: Seq<(Seq<char>, nat)>, b: Seq<(Seq<char>, nat)>, k: Seq<char>)
    ensures
        item_count(a + b, k) == item_count(a, k) + item_count(b, k),
        item_bytes(a + b, k) == item_bytes(a, k) + item_bytes(b, k),
        items_total(a + b) == items_total(a) + items_total(b),
    decreases b.len(),
{
    if b.len() == 0 {
        assert(a + b =~= a);
    } else {
        lemma_items_concat(a, b.drop_last(), k);
        assert((a + b).drop_last() =~= a + b.drop_last());
    }
}

/// Two mappings that agree category by category are equal.
pub proof fn lemma_maps_by_key(m1: Map<Seq<char>, (nat, nat)>, m2: Map<Seq<char>, (nat, nat)>)
    requires
        forall|k: Seq<char>|
            #[trigger] m1.contains_key(k) == m2.contains_key(k) && entry_or_zero(m1, k)
                == entry_or_zero(m2, k),
    ensures
        m1 == m2,
{
    assert forall|k: Seq<char>| #[trigger] m1.contains_key(k) implies m1[k] == m2[k] by {
        assert(entry_or_zero(m1, k) == entry_or_zero(m2, k));
    }
    assert(m1 =~= m2);
}

/// Folding two lists of contributions one after the other folds their
/// concatenation.
pub proof fn lemma_fold_concat(
    m: Map<Seq<char>, (nat, nat)>,
    a: Seq<(Seq<char>, nat)>,
    b: Seq<(Seq<char>, nat)>,
)
    ensures
        fold_items(fold_items(m, a), b) == fold_items(m, a + b),
{
    assert forall|k: Seq<char>|
        #[trigger] fold_items(fold_items(m, a), b).contains_key(k) == fold_items(m, a + b).contains_key(k)
            && entry_or_zero(fold_items(fold_items(m, a), b), k) == entry_or_zero(
            fold_items(m, a + b),
            k,
        ) by {
        lemma_fold_key(m, a, k);
        lemma_fold_key(fold_items(m, a), b, k);
        lemma_fold_key(m, a + b, k);
        lemma_items_concat(a, b, k);
    }
    lemma_maps_by_key(fold_items(fold_items(m, a), b), fold_items(m, a + b));
}

/// Where every contribution has at least one byte, a category has at least
/// as many bytes as lines.
pub proof fn lemma_bytes_cover_count(items: Seq<(Seq<char>, nat)>, k: Seq<char>)
    requires
        forall|i: int| 0 <= i < items.len() ==> (#[trigger] items[i]).1 >= 1,
    ensures
        item_bytes(items, k) >= item_count(items, k),
    decreases items.len(),
{
    if items.len() > 0 {
        lemma_bytes_cover_count(items.drop_last(), k);
    }
}

/// Whether `s` holds no terminator.
pub open spec fn no_newline(s: Seq<u8>) -> bool {
    forall|i: int| 0 <= i < s.len() ==> s[i] != NEWLINE
}

/// Whether `input` can be classified in chunks of `chunk_size` bytes: it
/// ends with a terminator (or is empty) and no record, with its terminator,
/// is longer than a chunk.
pub open spec fn fits(input: Seq<u8>, chunk_size: nat) -> bool {
    &&& terminated(input)
    &&& forall|i: int| 0 <= i < records(input).len() ==> (#[trigger] records(input)[i]).len() < chunk_size
}

/// An input without terminator is a single piece.
pub proof fn lemma_split_no_newline(t: Seq<u8>)
    requires
        no_newline(t),
    ensures
        split_lines(t) == seq![t],
    decreases t.len(),
{
    if t.len() > 0 {
        lemma_split_no_newline(t.drop_last());
        assert(t.drop_last().push(t.last()) =~= t);
        assert(seq![t.drop_last()].update(0, t) =~= seq![t]);
    } else {
        assert(t =~= Seq::<u8>::empty());
    }
}

/// A first piece starts with every byte before the first terminator.
pub proof fn lemma_split_first_len(t: Seq<u8>, k: int)
    requires
        0 <= k <= t.len(),
        no_newline(t.subrange(0, k)),
    ensures
        split_lines(t)[0].len() >= k,
    decreases t.len(),
{
    lemma_split_nonempty(t);
    if t.len() == k {
        assert(t.subrange(0, k) =~= t);
        lemma_split_no_newline(t);
    } else {
        let u = t.drop_last();
        assert(u.subrange(0, k) =~= t.subrange(0, k));
        lemma_split_first_len(u, k);
        lemma_split_nonempty(u);
    }
}

/// Every piece but the last is followed by a terminator in `t`.
pub proof fn lemma_split_piece_len(t: Seq<u8>)
    ensures
        forall|i: int| 0 <= i < split_lines(t).len() ==> (#[trigger] split_lines(t)[i]).len() <= t.len(),
        forall|i: int|
            0 <= i < split_lines(t).len() - 1 ==> (#[trigger] split_lines(t)[i]).len() + 1 <= t.len(),
    decreases t.len(),
{
    lemma_split_nonempty(t);
    if t.len() > 0 {
        lemma_split_piece_len(t.drop_last());
        lemma_split_nonempty(t.drop_last());
    }
}

/// Splitting after a terminated prefix splits the two parts apart.
pub proof fn lemma_split_concat(a: Seq<u8>, b: Seq<u8>)
    requires
        terminated(a),
    ensures
        split_lines(a + b) == split_lines(a).drop_last() + split_lines(b),
    decreases b.len(),
{
    lemma_split_nonempty(a);
    if b.len() == 0 {
        assert(a + b =~= a);
        if a.len() == 0 {
            assert(split_lines(a).drop_last() + split_lines(b) =~= split_lines(a));
        } else {
            assert(split_lines(a) =~= split_lines(a.drop_last()).push(Seq::<u8>::empty()));
            assert(split_lines(a).drop_last() + split_lines(b) =~= split_lines(a));
        }
    } else {
        lemma_split_concat(a, b.drop_last());
        lemma_split_nonempty(b.drop_last());
        assert((a + b).drop_last() =~= a + b.drop_last());
        assert((a + b).last() == b.last());
        let q = split_lines(a).drop_last();
        let p = split_lines(b.drop_last());
        if b.last() == NEWLINE {
            assert((q + p).push(Seq::<u8>::empty()) =~= q + p.push(Seq::<u8>::empty()));
        } else {
            assert((q + p).update((q + p).len() - 1, (q + p).last().push(b.last())) =~= q + p.update(
                p.len() - 1,
                p.last().push(b.last()),
            ));
        }
    }
}

/// The records after a terminated prefix are those of the prefix, then
/// those of the rest.
pub proof fn lemma_records_concat(a: Seq<u8>, b: Seq<u8>)
    requires
        terminated(a),
    ensures
        records(a + b) == records(a) + records(b),
{
    lemma_split_concat(a, b);
    lemma_split_nonempty(b);
    assert((split_lines(a).drop_last() + split_lines(b)).drop_last() =~= records(a) + records(b));
}

/// A terminated input splits into its records and one empty piece.
pub proof fn lemma_split_terminated(t: Seq<u8>)
    requires
        t.len() > 0,
        t.last() == NEWLINE,
    ensures
        split_lines(t) == records(t).push(Seq::<u8>::empty()),
        records(t).len() >= 1,
{
    lemma_split_nonempty(t.drop_last());
    assert(split_lines(t).drop_last().push(Seq::<u8>::empty()) =~= split_lines(t));
}

/// The pieces of `t`, each with its terminator, cover `t` and one more byte.
pub proof fn lemma_split_total(t: Seq<u8>)
    ensures
        items_total(line_items(split_lines(t))) == t.len() + 1,
    decreases t.len(),
{
    if t.len() == 0 {
        let l = line_items(split_lines(t));
        assert(l.len() == 1);
        assert(l[0].1 == 1);
        assert(l.drop_last() =~= Seq::<(Seq<char>, nat)>::empty());
        assert(items_total(l) == items_total(l.drop_last()) + l.last().1);
    } else {
        let u = t.drop_last();
        lemma_split_total(u);
        lemma_split_nonempty(u);
        let p = split_lines(u);
        let q = p.drop_last();
        assert(p =~= q.push(p.last()));
        assert(line_items(p) =~= line_items(q).push(line_item(p.last())));
        assert(line_items(p).drop_last() =~= line_items(q));
        if t.last() == NEWLINE {
            let x = Seq::<u8>::empty();
            assert(line_items(p.push(x)).drop_last() =~= line_items(p));
            assert(line_items(p.push(x)).last().1 == 1);
            assert(split_lines(t) == p.push(x));
            assert(items_total(line_items(p.push(x))) == items_total(line_items(p)) + 1);
        } else {
            let x = p.last().push(t.last());
            assert(p.update(p.len() - 1, x) =~= q.push(x));
            assert(line_items(q.push(x)).drop_last() =~= line_items(q));
            assert(line_items(q.push(x)).last().1 == x.len() + 1);
            assert(line_items(p).last().1 == p.last().len() + 1);
            assert(split_lines(t) == q.push(x));
            assert(items_total(line_items(q.push(x))) == items_total(line_items(q)) + x.len() + 1);
            assert(items_total(line_items(p)) == items_total(line_items(q)) + p.last().len() + 1);
        }
    }
}

/// Where every contribution has at least one byte, there are no more
/// contributions than bytes.
pub proof fn lemma_total_covers_len(items: Seq<(Seq<char>, nat)>)
    requires
        forall|i: int| 0 <= i < items.len() ==> (#[trigger] items[i]).1 >= 1,
    ensures
        items.len() <= items_total(items),
    decreases items.len(),
{
    if items.len() > 0 {
        lemma_total_covers_len(items.drop_last());
    }
}

/// A category with no contribution has no bytes.
pub proof fn lemma_no_count_no_bytes(items: Seq<(Seq<char>, nat)>, k: Seq<char>)
    requires
        item_count(items, k) == 0,
    ensures
        item_bytes(items, k) == 0,
    decreases items.len(),
{
    if items.len() > 0 {
        lemma_no_count_no_bytes(items.drop_last(), k);
    }
}

/// The contributions of a whole input read line by line, each line with the
/// terminator it has: the records, then a last line without terminator if
/// there is one.
pub open spec fn naive_items(s: Seq<u8>) -> Seq<(Seq<char>, nat)> {
    if terminated(s) {
        line_items(records(s))
    } else {
        line_items(records(s)).push((line_key(split_lines(s).last()), split_lines(s).last().len()))
    }
}

/// The last piece is empty exactly when the input is terminated.
pub proof fn lemma_last_piece_empty(s: Seq<u8>)
    ensures
        split_lines(s).len() >= 1,
        (split_lines(s).last().len() == 0) == terminated(s),
{
    lemma_split_nonempty(s);
    if s.len() > 0 {
        lemma_split_nonempty(s.drop_last());
    }
}

} // verus!
