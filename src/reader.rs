//! The chunked classification engine: finding chunk boundaries, classifying
//! the lines of a chunk, and merging the workers' reports.
use vstd::prelude::*;
use vstd::slice::slice_subrange;
use crate::chunker::{ChunkStep, Chunker};
use crate::json::string_field;
use crate::lines::{
    entry_or_zero, error_label, fits, fold_items, item_bytes, item_count, items_total,
    lemma_bytes_cover_count, lemma_fold_concat, lemma_fold_key, lemma_items_concat, lemma_maps_by_key,
    lemma_no_count_no_bytes, lemma_records_concat, lemma_split_first_len, lemma_split_piece_len,
    lemma_last_piece_empty, lemma_split_terminated, lemma_split_total,
    lemma_total_covers_len, line_item, line_items, line_key, naive_items, no_newline, records, split_lines, tally, terminated, type_field, NEWLINE,
};
use crate::json::json_string_field;
use crate::models::{items_of, parts_items, IntermediateTypeLineCounter, TypeLine, TypeLineResults};

verus! {

/// The category of lines that are no JSON object with a string `type` field.
pub const ERROR_TYPE: &'static str = "ERROR";

/// The name of the discriminant field.
pub const TYPE_FIELD: &'static str = "type";

/// The position just past the last terminator of `buf`, if it holds one.
pub fn find_last_newline_position(buf: &[u8]) -> (r: Option<usize>)
    ensures
        r.is_none() <==> forall|i: int| 0 <= i < buf@.len() ==> buf@[i] != NEWLINE,
        r.is_some() ==> {
            let p = r.unwrap() as int;
            &&& 1 <= p <= buf@.len()
            &&& buf@[p - 1] == NEWLINE
            &&& forall|i: int| p <= i < buf@.len() ==> buf@[i] != NEWLINE
        },
{
    let mut i: usize = buf.len();
    while i > 0
        invariant
            i <= buf@.len(),
            forall|j: int| i <= j < buf@.len() ==> buf@[j] != NEWLINE,
        decreases i,
    {
        if buf[i - 1] == NEWLINE {
            return Some(i);
        }
        i = i - 1;
    }
    None
}

/// The discriminant of one line: the string value of its `type` field,
/// if the line is a JSON object whose `type` field holds a string.
pub fn parse_type_line(line: &[u8]) -> (r: Option<TypeLine>)
    ensures
        r.is_some() == json_string_field(line@, type_field()).is_some(),
        r.is_some() ==> r.unwrap().linetype@ == json_string_field(line@, type_field()).unwrap(),
        line@.len() == 0 ==> r.is_none(),
{
    proof {
        reveal_strlit("type");
    }
    assert(TYPE_FIELD@ == type_field());
    match string_field(line, TYPE_FIELD) {
        Some(linetype) => Some(TypeLine { linetype }),
        None => None,
    }
}

/// The category of one line: its discriminant, or `ERROR`.
pub fn classify_line(line: &[u8]) -> (r: String)
    ensures
        r@ == line_key(line@),
        line@.len() == 0 ==> r@ == error_label(),
{
    proof {
        reveal_strlit("ERROR");
    }
    match parse_type_line(line) {
        Some(typeline) => typeline.linetype,
        None => ERROR_TYPE.to_owned(),
    }
}

/// Classifies every piece of `chunk` split at its terminators, in order,
/// each with its length plus one for the terminator. A chunk that ends
/// with a terminator ends with an empty piece, which falls into `ERROR`.
pub fn classify_chunk(chunk: &[u8]) -> (r: Vec<IntermediateTypeLineCounter>)
    requires
        chunk@.len() < usize::MAX,
    ensures
        items_of(r@) == line_items(split_lines(chunk@)),
        forall|i: int|
            0 <= i < split_lines(chunk@).len() && (#[trigger] split_lines(chunk@)[i]).len() == 0
                ==> line_key(split_lines(chunk@)[i]) == error_label(),
{
    let mut out: Vec<IntermediateTypeLineCounter> = Vec::new();
    let ghost mut done: Seq<Seq<u8>> = Seq::empty();
    let mut start: usize = 0;
    let mut i: usize = 0;
    assert(chunk@.subrange(0, 0) =~= Seq::<u8>::empty());
    assert(split_lines(Seq::<u8>::empty()) =~= done.push(chunk@.subrange(0, 0)));
    while i < chunk.len()
        invariant
            start <= i <= chunk@.len(),
            chunk@.len() < usize::MAX,
            split_lines(chunk@.subrange(0, i as int)) == done.push(chunk@.subrange(start as int, i as int)),
            items_of(out@) == line_items(done),
            forall|j: int|
                0 <= j < done.len() && (#[trigger] done[j]).len() == 0 ==> line_key(done[j])
                    == error_label(),
        decreases chunk@.len() - i,
    {
        let ghost cur = chunk@.subrange(start as int, i as int);
        assert(chunk@.subrange(0, i + 1).drop_last() =~= chunk@.subrange(0, i as int));
        if chunk[i] == NEWLINE {
            let line = slice_subrange(chunk, start, i);
            let key = classify_line(line);
            let ghost old_out = out@;
            out.push(IntermediateTypeLineCounter { key, bytes: i - start + 1 });
            proof {
                let old_done = done;
                done = done.push(cur);
                assert(items_of(old_out).len() == old_out.len());
                assert(line_items(old_done).len() == old_done.len());
                assert forall|j: int| 0 <= j < old_done.len() implies #[trigger] items_of(out@)[j]
                    == line_items(done)[j] by {
                    assert(out@[j] == old_out[j]);
                    assert(items_of(old_out)[j] == line_items(old_done)[j]);
                    assert(done[j] == old_done[j]);
                }
                assert(items_of(out@) =~= line_items(done));
                assert(chunk@.subrange(i + 1, i + 1) =~= Seq::<u8>::empty());
                assert forall|j: int|
                    0 <= j < done.len() && (#[trigger] done[j]).len() == 0 implies line_key(done[j])
                        == error_label() by {
                    if j < old_done.len() {
                        assert(done[j] == old_done[j]);
                    }
                }
            }
            start = i + 1;
        } else {
            assert(chunk@.subrange(start as int, i + 1) =~= cur.push(chunk@[i as int]));
            assert(done.push(cur).update(done.len() as int, cur.push(chunk@[i as int])) =~= done.push(
                chunk@.subrange(start as int, i + 1),
            ));
        }
        i = i + 1;
    }
    assert(chunk@.subrange(0, chunk@.len() as int) =~= chunk@);
    let line = slice_subrange(chunk, start, i);
    let key = classify_line(line);
    let ghost old_out = out@;
    out.push(IntermediateTypeLineCounter { key, bytes: i - start + 1 });
    proof {
        let old_done = done;
        done = done.push(chunk@.subrange(start as int, i as int));
        assert(items_of(old_out).len() == old_out.len());
                assert(line_items(old_done).len() == old_done.len());
                assert forall|j: int| 0 <= j < old_done.len() implies #[trigger] items_of(out@)[j]
            == line_items(done)[j] by {
            assert(out@[j] == old_out[j]);
            assert(items_of(old_out)[j] == line_items(old_done)[j]);
            assert(done[j] == old_done[j]);
        }
        assert(items_of(out@) =~= line_items(done));
        assert forall|j: int|
            0 <= j < done.len() && (#[trigger] done[j]).len() == 0 implies line_key(done[j])
                == error_label() by {
            if j < old_done.len() {
                assert(done[j] == old_done[j]);
            }
        }
    }
    out
}

/// `m` with `n` lines and `n` bytes taken off its `ERROR` category, which
/// goes when no byte of it is left.
pub open spec fn corrected(m: Map<Seq<char>, (nat, nat)>, n: nat) -> Map<Seq<char>, (nat, nat)> {
    if m.contains_key(error_label()) {
        let c = m[error_label()];
        if c.1 > n {
            m.insert(error_label(), ((c.0 - n) as nat, (c.1 - n) as nat))
        } else {
            m.remove(error_label())
        }
    } else {
        m
    }
}

/// Adds every line of one worker's report to `results`.
pub fn merge_counters(results: &mut TypeLineResults, counters: &Vec<IntermediateTypeLineCounter>)
    requires
        old(results).wf(),
        old(results).total_count() + counters@.len() <= usize::MAX,
        old(results).total_bytes() + items_total(items_of(counters@)) <= usize::MAX,
        forall|i: int| 0 <= i < counters@.len() ==> (#[trigger] counters@[i]).bytes >= 1,
    ensures
        final(results).wf(),
        final(results)@ == fold_items(old(results)@, items_of(counters@)),
        final(results).total_count() == old(results).total_count() + counters@.len(),
        final(results).total_bytes() == old(results).total_bytes() + items_total(items_of(counters@)),
{
    let ghost items = items_of(counters@);
    let mut i: usize = 0;
    assert(items.subrange(0, 0) =~= Seq::<(Seq<char>, nat)>::empty());
    while i < counters.len()
        invariant
            items == items_of(counters@),
            i <= counters@.len(),
            results.wf(),
            old(results).total_count() + counters@.len() <= usize::MAX,
            old(results).total_bytes() + items_total(items) <= usize::MAX,
            forall|j: int| 0 <= j < counters@.len() ==> (#[trigger] counters@[j]).bytes >= 1,
            results@ == fold_items(old(results)@, items.subrange(0, i as int)),
            results.total_count() == old(results).total_count() + i,
            results.total_bytes() == old(results).total_bytes() + items_total(items.subrange(0, i as int)),
        decreases counters@.len() - i,
    {
        proof {
            assert(items.subrange(0, i + 1).drop_last() =~= items.subrange(0, i as int));
            assert(items.subrange(0, i + 1) + items.subrange(i + 1, items.len() as int) =~= items);
            lemma_items_concat(items.subrange(0, i + 1), items.subrange(i + 1, items.len() as int), error_label());
        }
        let key = counters[i].key.clone();
        results.add_line(key, counters[i].bytes);
        i = i + 1;
    }
    assert(items.subrange(0, i as int) =~= items);
}

/// Takes off the `ERROR` category one line and one byte for each of
/// `chunks` chunks, the empty piece that follows each chunk's last
/// terminator; the category goes when no byte of it is left.
pub fn correct_boundary(results: &mut TypeLineResults, chunks: usize)
    requires
        old(results).wf(),
        chunks > 0 ==> old(results)@.contains_key(error_label()),
        old(results)@.contains_key(error_label()) ==> chunks <= old(results)@[error_label()].0,
    ensures
        final(results).wf(),
        final(results)@ == corrected(old(results)@, chunks as nat),
        final(results).total_count() + chunks == old(results).total_count(),
        final(results).total_bytes() + chunks == old(results).total_bytes(),
{
    proof {
        reveal_strlit("ERROR");
    }
    assert(ERROR_TYPE@ == error_label());
    let ghost before = results@;
    if let Some((key, counter)) = results.remove_entry(ERROR_TYPE) {
        let mut c = counter;
        c.bytes = c.bytes - chunks;
        c.count = c.count - chunks;
        if c.bytes > 0 {
            results.insert(key, c);
            assert(results@ =~= before.insert(error_label(), (c.count as nat, c.bytes as nat)));
        }
    } else {
        assert(results@ =~= before);
    }
}

/// Merges the reports of all workers, one per dispatched chunk, and
/// corrects for the empty piece that ends each chunk. Each report must end
/// with that piece: one byte in `ERROR`.
pub fn aggregate(parts: &Vec<Vec<IntermediateTypeLineCounter>>) -> (r: TypeLineResults)
    requires
        parts_items(parts@).len() <= usize::MAX,
        items_total(parts_items(parts@)) <= usize::MAX,
        forall|p: int|
            0 <= p < parts@.len() ==> (#[trigger] parts@[p])@.len() > 0 && parts@[p]@.last().key@
                == error_label() && parts@[p]@.last().bytes == 1,
        forall|p: int, i: int|
            0 <= p < parts@.len() && 0 <= i < parts@[p]@.len() ==> (#[trigger] parts@[p]@[i]).bytes
                >= 1,
    ensures
        r.wf(),
        r@ == corrected(fold_items(Map::empty(), parts_items(parts@)), parts@.len() as nat),
        r.total_count() + parts@.len() == parts_items(parts@).len(),
        r.total_bytes() + parts@.len() == items_total(parts_items(parts@)),
{
    let mut results = TypeLineResults::new();
    let mut p: usize = 0;
    while p < parts.len()
        invariant
            p <= parts@.len(),
            parts_items(parts@).len() <= usize::MAX,
            items_total(parts_items(parts@)) <= usize::MAX,
            forall|q: int|
                0 <= q < parts@.len() ==> (#[trigger] parts@[q])@.len() > 0 && parts@[q]@.last().key@
                    == error_label() && parts@[q]@.last().bytes == 1,
            forall|q: int, i: int|
                0 <= q < parts@.len() && 0 <= i < parts@[q]@.len() ==> (#[trigger] parts@[q]@[i]).bytes
                    >= 1,
            results.wf(),
            results@ == fold_items(Map::empty(), parts_items(parts@.subrange(0, p as int))),
            results.total_count() == parts_items(parts@.subrange(0, p as int)).len(),
            results.total_bytes() == items_total(parts_items(parts@.subrange(0, p as int))),
            item_count(parts_items(parts@.subrange(0, p as int)), error_label()) >= p,
            forall|i: int|
                0 <= i < parts_items(parts@.subrange(0, p as int)).len() ==> (#[trigger] parts_items(
                    parts@.subrange(0, p as int),
                )[i]).1 >= 1,
        decreases parts@.len() - p,
    {
        let ghost done = parts_items(parts@.subrange(0, p as int));
        let ghost next = parts_items(parts@.subrange(0, p + 1));
        let ghost part = items_of(parts@[p as int]@);
        proof {
            assert(parts@.subrange(0, p + 1).drop_last() =~= parts@.subrange(0, p as int));
            assert(next == done + part);
            lemma_parts_prefix(parts@, p as int + 1);
            lemma_items_concat(done, part, error_label());
            lemma_part_has_pseudo_line(parts@[p as int]@);
        }
        merge_counters(&mut results, &parts[p]);
        proof {
            lemma_fold_concat(Map::empty(), done, part);
            assert forall|i: int| 0 <= i < next.len() implies (#[trigger] next[i]).1 >= 1 by {
                if i >= done.len() {
                    assert(next[i] == part[i - done.len()]);
                    assert(parts@[p as int]@[i - done.len()].bytes >= 1);
                }
            }
        }
        p = p + 1;
    }
    assert(parts@.subrange(0, p as int) =~= parts@);
    let ghost all = parts_items(parts@);
    let ghost m = results@;
    proof {
        lemma_fold_key(Map::empty(), all, error_label());
        lemma_bytes_cover_count(all, error_label());
        if m.contains_key(error_label()) {
            assert(entry_or_zero(m, error_label()) == m[error_label()]);
        }
    }
    correct_boundary(&mut results, parts.len());
    results
}

/// The contributions of the first `n` reports are no more than those of all.
proof fn lemma_parts_prefix(parts: Seq<Vec<IntermediateTypeLineCounter>>, n: int)
    requires
        0 <= n <= parts.len(),
    ensures
        parts_items(parts.subrange(0, n)).len() <= parts_items(parts).len(),
        items_total(parts_items(parts.subrange(0, n))) <= items_total(parts_items(parts)),
    decreases parts.len(),
{
    if n < parts.len() {
        assert(parts.drop_last().subrange(0, n) =~= parts.subrange(0, n));
        lemma_parts_prefix(parts.drop_last(), n);
        lemma_items_concat(parts_items(parts.drop_last()), items_of(parts.last()@), error_label());
    } else {
        assert(parts.subrange(0, n) =~= parts);
    }
}

/// A report that ends with an empty piece has at least one `ERROR` line.
proof fn lemma_part_has_pseudo_line(part: Seq<IntermediateTypeLineCounter>)
    requires
        part.len() > 0,
        part.last().key@ == error_label(),
    ensures
        item_count(items_of(part), error_label()) >= 1,
{
    let items = items_of(part);
    assert(items.last().0 == error_label());
}

/// Where the contributions `x` are those of `y` plus `n` one-byte `ERROR`
/// lines, correcting the mapping of `x` by `n` gives the mapping of `y`.
proof fn lemma_correction_exact(x: Seq<(Seq<char>, nat)>, y: Seq<(Seq<char>, nat)>, n: nat)
    requires
        forall|k: Seq<char>|
            #[trigger] item_count(x, k) == item_count(y, k) + if k == error_label() {
                n
            } else {
                0
            },
        forall|k: Seq<char>|
            #[trigger] item_bytes(x, k) == item_bytes(y, k) + if k == error_label() {
                n
            } else {
                0
            },
        forall|i: int| 0 <= i < y.len() ==> (#[trigger] y[i]).1 >= 1,
    ensures
        corrected(fold_items(Map::empty(), x), n) == fold_items(Map::empty(), y),
{
    let mx = fold_items(Map::empty(), x);
    let my = fold_items(Map::empty(), y);
    let c = corrected(mx, n);
    assert forall|k: Seq<char>|
        #[trigger] c.contains_key(k) == my.contains_key(k) && entry_or_zero(c, k) == entry_or_zero(my, k) by {
        lemma_fold_key(Map::empty(), x, k);
        lemma_fold_key(Map::empty(), y, k);
        assert(item_count(x, k) == item_count(y, k) + if k == error_label() { n } else { 0 });
        assert(item_bytes(x, k) == item_bytes(y, k) + if k == error_label() { n } else { 0 });
        if k == error_label() {
            lemma_bytes_cover_count(y, k);
            if item_count(y, k) == 0 {
                lemma_no_count_no_bytes(y, k);
            }
        }
    }
    lemma_maps_by_key(c, my);
}

/// Classifies a whole input in chunks of at most `chunk_size` bytes, as the
/// workers and the aggregator do: the result is the category mapping of the
/// input's records, or nothing where the input cannot be cut into such
/// chunks. `verbose_errors` concerns diagnostics, which are the caller's.
pub fn calculate_results(input: &[u8], chunk_size: usize, verbose_errors: bool) -> (r: Option<
    TypeLineResults,
>)
    requires
        chunk_size > 0,
        input@.len() <= usize::MAX / 2,
    ensures
        r.is_some() == fits(input@, chunk_size as nat),
        r.is_some() ==> {
            let res = r.unwrap();
            &&& res.wf()
            &&& res@ == tally(records(input@))
            &&& res.total_count() == records(input@).len()
            &&& res.total_bytes() == input@.len()
        },
{
    let mut chunker = Chunker::new(chunk_size);
    let mut parts: Vec<Vec<IntermediateTypeLineCounter>> = Vec::new();
    let mut pos: usize = 0;
    let ghost mut start: int = 0;
    let ghost err = error_label();
    assert(input@.subrange(0, 0) =~= Seq::<u8>::empty());
    assert(records(Seq::<u8>::empty()) =~= Seq::<Seq<u8>>::empty());
    assert(line_items(Seq::<Seq<u8>>::empty()) =~= Seq::<(Seq<char>, nat)>::empty());
    loop
        invariant
            chunker.wf(),
            chunker.size() == chunk_size,
            0 <= start <= pos <= input@.len(),
            input@.len() <= usize::MAX / 2,
            chunker.carry() == input@.subrange(start, pos as int),
            terminated(input@.subrange(0, start)),
            forall|i: int|
                0 <= i < records(input@.subrange(0, start)).len() ==> (#[trigger] records(
                    input@.subrange(0, start),
                )[i]).len() < chunk_size,
            forall|k: Seq<char>|
                #[trigger] item_count(parts_items(parts@), k) == item_count(
                    line_items(records(input@.subrange(0, start))),
                    k,
                ) + if k == err {
                    parts@.len()
                } else {
                    0
                },
            forall|k: Seq<char>|
                #[trigger] item_bytes(parts_items(parts@), k) == item_bytes(
                    line_items(records(input@.subrange(0, start))),
                    k,
                ) + if k == err {
                    parts@.len()
                } else {
                    0
                },
            parts_items(parts@).len() == records(input@.subrange(0, start)).len() + parts@.len(),
            items_total(parts_items(parts@)) == start + parts@.len(),
            parts@.len() <= start,
            err == error_label(),
            forall|q: int|
                0 <= q < parts@.len() ==> (#[trigger] parts@[q])@.len() > 0 && parts@[q]@.last().key@
                    == error_label() && parts@[q]@.last().bytes == 1,
            forall|q: int, i: int|
                0 <= q < parts@.len() && 0 <= i < parts@[q]@.len() ==> (#[trigger] parts@[q]@[i]).bytes
                    >= 1,
            forall|i: int|
                0 <= i < parts_items(parts@).len() ==> (#[trigger] parts_items(parts@)[i]).1 >= 1,
        ensures
            start == input@.len(),
        decreases input@.len() - pos,
    {
        let want = chunker.wanted();
        let end = if want <= input.len() - pos {
            pos + want
        } else {
            input.len()
        };
        let read = slice_subrange(input, pos, end);
        let ghost old_carry = chunker.carry();
        proof {
            chunker.lemma_carry();
        }
        let ghost buf = chunker.carry() + read@;
        assert(buf =~= input@.subrange(start, end as int));
        let step = chunker.feed(read);
        match step {
            ChunkStep::Done => {
                assert(old_carry.len() == 0 && read@.len() == 0);
                break ;
            },
            ChunkStep::Fatal => {
                proof {
                    lemma_fatal_does_not_fit(input@, start, end as int, chunk_size as int);
                }
                return None;
            },
            ChunkStep::Chunk(c) => {
                proof {
                    assert(c@.len() <= buf.len());
                    assert(c@.last() == buf[c@.len() - 1]);
                    if end == pos {
                        assert(buf =~= old_carry);
                        assert(old_carry[c@.len() - 1] != NEWLINE);
                    }
                    assert(end > pos);
                }
                let part = classify_chunk(c.as_slice());
                let ghost old_parts = parts@;
                let ghost prefix = input@.subrange(0, start);
                let ghost next = start + c@.len();
                proof {
                    assert(c@ =~= input@.subrange(start, next));
                    assert(input@.subrange(0, next) =~= prefix + c@);
                    lemma_records_concat(prefix, c@);
                    lemma_split_terminated(c@);
                    lemma_split_piece_len(c@);
                    lemma_split_total(c@);
                }
                parts.push(part);
                proof {
                    assert(parts@.drop_last() =~= old_parts);
                    assert((c@ + chunker.carry()).subrange(c@.len() as int, buf.len() as int)
                        =~= chunker.carry());
                    assert(buf.subrange(c@.len() as int, buf.len() as int) =~= input@.subrange(
                        next,
                        end as int,
                    ));
                    assert(chunker.carry() =~= input@.subrange(next, end as int));
                    lemma_chunk_step(old_parts, parts@, prefix, c@, chunk_size as int);
                    start = next;
                }
            },
        }
        pos = end;
    }
    proof {
        assert(input@.subrange(0, start) =~= input@);
        lemma_total_covers_len(parts_items(parts@));
        lemma_correction_exact(parts_items(parts@), line_items(records(input@)), parts@.len() as nat);
        assert forall|i: int| 0 <= i < line_items(records(input@)).len() implies (#[trigger] line_items(
            records(input@),
        )[i]).1 >= 1 by {}
    }
    let results = aggregate(&parts);
    Some(results)
}

/// A read that brings no terminator means the input does not fit.
proof fn lemma_fatal_does_not_fit(input: Seq<u8>, start: int, end: int, chunk_size: int)
    requires
        0 <= start < end <= input.len(),
        end == input.len() || end == start + chunk_size,
        chunk_size > 0,
        terminated(input.subrange(0, start)),
        no_newline(input.subrange(start, end)),
    ensures
        !fits(input, chunk_size as nat),
{
    if terminated(input) {
        if end == input.len() {
            assert(input.last() == input.subrange(start, end)[end - start - 1]);
        } else {
            let prefix = input.subrange(0, start);
            let t = input.subrange(start, input.len() as int);
            assert(input =~= prefix + t);
            lemma_records_concat(prefix, t);
            assert(t.last() == input.last());
            lemma_split_terminated(t);
            assert(t.subrange(0, chunk_size) =~= input.subrange(start, end));
            lemma_split_first_len(t, chunk_size);
            assert(records(t)[0] == split_lines(t)[0]);
            let i = records(prefix).len() as int;
            assert(records(input)[i] == records(t)[0]);
        }
    }
}

/// One classified chunk keeps the driver's account of its reports.
proof fn lemma_chunk_step(
    old_parts: Seq<Vec<IntermediateTypeLineCounter>>,
    parts: Seq<Vec<IntermediateTypeLineCounter>>,
    prefix: Seq<u8>,
    c: Seq<u8>,
    chunk_size: int,
)
    requires
        parts.len() == old_parts.len() + 1,
        parts.drop_last() == old_parts,
        items_of(parts.last()@) == line_items(split_lines(c)),
        forall|i: int|
            0 <= i < split_lines(c).len() && (#[trigger] split_lines(c)[i]).len() == 0 ==> line_key(
                split_lines(c)[i],
            ) == error_label(),
        c.len() > 0,
        c.len() <= chunk_size,
        c.last() == NEWLINE,
        terminated(prefix),
        records(prefix + c) == records(prefix) + records(c),
        split_lines(c) == records(c).push(Seq::<u8>::empty()),
        items_total(line_items(split_lines(c))) == c.len() + 1,
        forall|i: int|
            0 <= i < split_lines(c).len() - 1 ==> (#[trigger] split_lines(c)[i]).len() + 1 <= c.len(),
        forall|i: int|
            0 <= i < records(prefix).len() ==> (#[trigger] records(prefix)[i]).len() < chunk_size,
        forall|k: Seq<char>|
            #[trigger] item_count(parts_items(old_parts), k) == item_count(line_items(records(prefix)), k)
                + if k == error_label() {
                old_parts.len()
            } else {
                0
            },
        forall|k: Seq<char>|
            #[trigger] item_bytes(parts_items(old_parts), k) == item_bytes(line_items(records(prefix)), k)
                + if k == error_label() {
                old_parts.len()
            } else {
                0
            },
        parts_items(old_parts).len() == records(prefix).len() + old_parts.len(),
        items_total(parts_items(old_parts)) == prefix.len() + old_parts.len(),
        old_parts.len() <= prefix.len(),
        forall|q: int|
            0 <= q < old_parts.len() ==> (#[trigger] old_parts[q])@.len() > 0 && old_parts[q]@.last().key@
                == error_label() && old_parts[q]@.last().bytes == 1,
        forall|q: int, i: int|
            0 <= q < old_parts.len() && 0 <= i < old_parts[q]@.len() ==> (#[trigger] old_parts[q]@[i]).bytes
                >= 1,
        forall|i: int|
            0 <= i < parts_items(old_parts).len() ==> (#[trigger] parts_items(old_parts)[i]).1 >= 1,
    ensures
        terminated(prefix + c),
        forall|i: int|
            0 <= i < records(prefix + c).len() ==> (#[trigger] records(prefix + c)[i]).len() < chunk_size,
        forall|k: Seq<char>|
            #[trigger] item_count(parts_items(parts), k) == item_count(line_items(records(prefix + c)), k)
                + if k == error_label() {
                parts.len()
            } else {
                0
            },
        forall|k: Seq<char>|
            #[trigger] item_bytes(parts_items(parts), k) == item_bytes(line_items(records(prefix + c)), k)
                + if k == error_label() {
                parts.len()
            } else {
                0
            },
        parts_items(parts).len() == records(prefix + c).len() + parts.len(),
        items_total(parts_items(parts)) == (prefix + c).len() + parts.len(),
        parts.len() <= (prefix + c).len(),
        forall|q: int|
            0 <= q < parts.len() ==> (#[trigger] parts[q])@.len() > 0 && parts[q]@.last().key@
                == error_label() && parts[q]@.last().bytes == 1,
        forall|q: int, i: int|
            0 <= q < parts.len() && 0 <= i < parts[q]@.len() ==> (#[trigger] parts[q]@[i]).bytes >= 1,
        forall|i: int| 0 <= i < parts_items(parts).len() ==> (#[trigger] parts_items(parts)[i]).1 >= 1,
{
    let rp = records(prefix);
    let rc = records(c);
    let part = items_of(parts.last()@);
    let old_items = parts_items(old_parts);
    let empty = Seq::<u8>::empty();
    assert(parts_items(parts) == old_items + part);
    assert((prefix + c).last() == c.last());
    // records of the chunk fit
    assert forall|i: int| 0 <= i < records(prefix + c).len() implies (#[trigger] records(prefix + c)[i]).len()
        < chunk_size by {
        if i >= rp.len() {
            assert(records(prefix + c)[i] == rc[i - rp.len()]);
            assert(rc[i - rp.len()] == split_lines(c)[i - rp.len()]);
        } else {
            assert(records(prefix + c)[i] == rp[i]);
        }
    }
    // the chunk's contributions: its records, then one empty piece
    let last_idx = split_lines(c).len() - 1;
    assert(split_lines(c)[last_idx] == empty);
    assert(line_key(empty) == error_label());
    assert(line_items(split_lines(c)) =~= line_items(rc).push(line_item(empty)));
    assert(line_items(rp + rc) =~= line_items(rp) + line_items(rc));
    assert forall|k: Seq<char>|
        #[trigger] item_count(parts_items(parts), k) == item_count(line_items(records(prefix + c)), k) + if k
            == error_label() {
            parts.len()
        } else {
            0
        } && item_bytes(parts_items(parts), k) == item_bytes(line_items(records(prefix + c)), k) + if k
            == error_label() {
            parts.len()
        } else {
            0
        } by {
        lemma_items_concat(old_items, part, k);
        lemma_items_concat(line_items(rp), line_items(rc), k);
        assert(line_items(rc).push(line_item(empty)).drop_last() =~= line_items(rc));
        assert(item_count(old_items, k) == item_count(line_items(rp), k) + if k == error_label() {
            old_parts.len()
        } else {
            0
        });
        assert(item_bytes(old_items, k) == item_bytes(line_items(rp), k) + if k == error_label() {
            old_parts.len()
        } else {
            0
        });
    }
    assert forall|k: Seq<char>|
        #[trigger] item_count(parts_items(parts), k) == item_count(line_items(records(prefix + c)), k) + if k
            == error_label() {
            parts.len()
        } else {
            0
        } by {}
    assert forall|k: Seq<char>|
        #[trigger] item_bytes(parts_items(parts), k) == item_bytes(line_items(records(prefix + c)), k) + if k
            == error_label() {
            parts.len()
        } else {
            0
        } by {
        assert(item_count(parts_items(parts), k) == item_count(line_items(records(prefix + c)), k) + if k
            == error_label() {
            parts.len()
        } else {
            0
        });
    }
    lemma_items_concat(old_items, part, error_label());
    assert(part.len() == split_lines(c).len());
    // every report still ends with its empty piece, and no line is empty of bytes
    assert(part.last() == line_item(empty));
    assert forall|q: int, i: int| 0 <= q < parts.len() && 0 <= i < parts[q]@.len() implies (#[trigger] parts[q]@[i]).bytes
        >= 1 by {
        if q == old_parts.len() {
            assert(part[i] == line_item(split_lines(c)[i]));
        } else {
            assert(parts[q] == old_parts[q]);
        }
    }
    assert forall|q: int| 0 <= q < parts.len() implies (#[trigger] parts[q])@.len() > 0 && parts[q]@.last().key@
        == error_label() && parts[q]@.last().bytes == 1 by {
        if q < old_parts.len() {
            assert(parts[q] == old_parts[q]);
        }
    }
    assert forall|i: int| 0 <= i < parts_items(parts).len() implies (#[trigger] parts_items(parts)[i]).1 >= 1 by {
        if i >= old_items.len() {
            assert(parts_items(parts)[i] == part[i - old_items.len()]);
        }
    }
}

/// Classifies a whole input line by line in one pass. Each line counts
/// with the terminator it has, so a last line without terminator counts
/// too, with its own length. `verbose_errors` concerns diagnostics, which
/// are the caller's.
pub fn calculate_results_naive(input: &[u8], verbose_errors: bool) -> (r: TypeLineResults)
    requires
        input@.len() < usize::MAX,
    ensures
        r.wf(),
        r@ == fold_items(Map::empty(), naive_items(input@)),
        r.total_count() == naive_items(input@).len(),
        r.total_bytes() == input@.len(),
{
    let pieces = classify_chunk(input);
    let ghost items = items_of(pieces@);
    proof {
        lemma_last_piece_empty(input@);
        lemma_split_total(input@);
        assert(items.len() == split_lines(input@).len());
    }
    assert forall|j: int| 0 <= j < pieces@.len() implies (#[trigger] pieces@[j]).bytes >= 1 by {
        assert(items[j] == line_item(split_lines(input@)[j]));
    }
    let n = pieces.len() - 1;
    let mut results = TypeLineResults::new();
    let mut i: usize = 0;
    assert(items.subrange(0, 0) =~= Seq::<(Seq<char>, nat)>::empty());
    while i < n
        invariant
            n == pieces@.len() - 1,
            items == items_of(pieces@),
            items_total(items) == input@.len() + 1,
            input@.len() < usize::MAX,
            forall|j: int| 0 <= j < pieces@.len() ==> (#[trigger] pieces@[j]).bytes >= 1,
            i <= n,
            results.wf(),
            results@ == fold_items(Map::empty(), items.subrange(0, i as int)),
            results.total_count() == i,
            results.total_bytes() == items_total(items.subrange(0, i as int)),
        decreases n - i,
    {
        proof {
            assert(items.subrange(0, i + 1).drop_last() =~= items.subrange(0, i as int));
            assert(items.subrange(0, i + 1) + items.subrange(i + 1, items.len() as int) =~= items);
            lemma_items_concat(items.subrange(0, i + 1), items.subrange(i + 1, items.len() as int), error_label());
            assert(items.subrange(0, i + 1).last() == items[i as int]);
            assert(items[i as int].1 == pieces@[i as int].bytes);
            assert(items_total(items.subrange(0, i + 1)) == items_total(items.subrange(0, i as int))
                + pieces@[i as int].bytes);
        }
        let key = pieces[i].key.clone();
        results.add_line(key, pieces[i].bytes);
        i = i + 1;
    }
    let ghost front = items.subrange(0, n as int);
    proof {
        assert(front =~= line_items(records(input@)));
        assert(items =~= front.push(items.last()));
        assert(items.drop_last() =~= front);
    }
    if pieces[n].bytes > 1 {
        let key = pieces[n].key.clone();
        results.add_line(key, pieces[n].bytes - 1);
        proof {
            let x = (key@, (pieces@[n as int].bytes - 1) as nat);
            assert(front.push(x).drop_last() =~= front);
            assert(naive_items(input@) =~= front.push(x));
        }
    }
    results
}

} // verus!
