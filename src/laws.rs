//! Properties that relate several operations of the library.
use vstd::prelude::*;
use crate::lines::{
    entry_or_zero, fits, fold_items, item_bytes, item_count, lemma_fold_key, lemma_maps_by_key,
    line_items, line_key, records, tally,
};

verus! {

/// Merging two workers' contributions into a mapping gives the same mapping
/// in either order.
pub proof fn lemma_merge_commutes(
    m: Map<Seq<char>, (nat, nat)>,
    a: Seq<(Seq<char>, nat)>,
    b: Seq<(Seq<char>, nat)>,
)
    ensures
        fold_items(fold_items(m, a), b) == fold_items(fold_items(m, b), a),
{
    let ab = fold_items(fold_items(m, a), b);
    let ba = fold_items(fold_items(m, b), a);
    assert forall|k: Seq<char>|
        #[trigger] ab.contains_key(k) == ba.contains_key(k) && entry_or_zero(ab, k) == entry_or_zero(ba, k) by {
        lemma_fold_key(m, a, k);
        lemma_fold_key(fold_items(m, a), b, k);
        lemma_fold_key(m, b, k);
        lemma_fold_key(fold_items(m, b), a, k);
    }
    lemma_maps_by_key(ab, ba);
}

/// Category `k` of the mapping of `lines` holds exactly the lines whose
/// category is `k`: their number and their bytes, terminators included;
/// it is present exactly when some line falls into it.
pub proof fn lemma_category_tally(lines: Seq<Seq<u8>>, k: Seq<char>)
    ensures
        tally(lines).contains_key(k) == (item_count(line_items(lines), k) > 0),
        tally(lines).contains_key(k) ==> tally(lines)[k] == (
            item_count(line_items(lines), k),
            item_bytes(line_items(lines), k),
        ),
{
    lemma_fold_key(Map::empty(), line_items(lines), k);
}

/// Every line is counted under its own category.
pub proof fn lemma_line_counted(lines: Seq<Seq<u8>>, i: int)
    requires
        0 <= i < lines.len(),
    ensures
        tally(lines).contains_key(line_key(lines[i])),
        tally(lines)[line_key(lines[i])].0 >= 1,
        tally(lines)[line_key(lines[i])].1 >= lines[i].len() + 1,
{
    let k = line_key(lines[i]);
    lemma_item_at(line_items(lines), i);
    lemma_category_tally(lines, k);
}

/// The contribution at `i` is counted in its own category.
proof fn lemma_item_at(items: Seq<(Seq<char>, nat)>, i: int)
    requires
        0 <= i < items.len(),
    ensures
        item_count(items, items[i].0) >= 1,
        item_bytes(items, items[i].0) >= items[i].1,
    decreases items.len(),
{
    if i < items.len() - 1 {
        lemma_item_at(items.drop_last(), i);
    }
}

/// A chunk size that holds every record holds them at any larger size too.
/// With `calculate_results`, whose mapping is that of the input's records
/// whatever the chunk size, every chunk size from the longest record up
/// gives the same mapping.
pub proof fn lemma_fits_larger_chunks(input: Seq<u8>, a: nat, b: nat)
    requires
        fits(input, a),
        a <= b,
    ensures
        fits(input, b),
{
    assert forall|i: int| 0 <= i < records(input).len() implies (#[trigger] records(input)[i]).len() < b by {
        assert(records(input)[i].len() < a);
    }
}

} // verus!
