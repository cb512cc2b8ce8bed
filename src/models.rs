//! The data the classifier produces: per-category tallies and the mapping
//! that collects them.
use vstd::prelude::*;

verus! {

/// The discriminant read from one record.
pub struct TypeLine {
    pub linetype: String,
}

/// How many records fell into a category, and how many bytes they occupied.
#[derive(Debug, Clone, Copy)]
pub struct TypeLineCounter {
    pub count: usize,
    pub bytes: usize,
}

impl TypeLineCounter {
    /// An empty tally.
    pub fn new() -> (r: TypeLineCounter)
        ensures
            r.count == 0,
            r.bytes == 0,
    {
        TypeLineCounter { count: 0, bytes: 0 }
    }

    /// Records one more line of `bytes` bytes.
    pub fn add_bytes(&mut self, bytes: usize)
        requires
            old(self).count < usize::MAX,
            old(self).bytes + bytes <= usize::MAX,
        ensures
            final(self).count == old(self).count + 1,
            final(self).bytes == old(self).bytes + bytes,
    {
        self.count = self.count + 1;
        self.bytes = self.bytes + bytes;
    }
}

/// One classified line, as a worker reports it: its category and its length
/// including the line terminator.
pub struct IntermediateTypeLineCounter {
    pub key: String,
    pub bytes: usize,
}

/// Sum of the counts held by a list of entries.
pub open spec fn sum_counts(s: Seq<(String, TypeLineCounter)>) -> nat
    decreases s.len(),
{
    if s.len() == 0 {
        0
    } else {
        sum_counts(s.drop_last()) + s.last().1.count as nat
    }
}

/// Sum of the byte totals held by a list of entries.
pub open spec fn sum_bytes(s: Seq<(String, TypeLineCounter)>) -> nat
    decreases s.len(),
{
    if s.len() == 0 {
        0
    } else {
        sum_bytes(s.drop_last()) + s.last().1.bytes as nat
    }
}

/// Replacing one entry changes the sums by the difference.
proof fn lemma_sums_update(s: Seq<(String, TypeLineCounter)>, i: int, x: (String, TypeLineCounter))
    requires
        0 <= i < s.len(),
    ensures
        sum_counts(s.update(i, x)) + s[i].1.count == sum_counts(s) + x.1.count,
        sum_bytes(s.update(i, x)) + s[i].1.bytes == sum_bytes(s) + x.1.bytes,
    decreases s.len(),
{
    if i < s.len() - 1 {
        lemma_sums_update(s.drop_last(), i, x);
        assert(s.update(i, x).drop_last() =~= s.drop_last().update(i, x));
    } else {
        assert(s.update(i, x).drop_last() =~= s.drop_last());
    }
}

/// Removing one entry takes its tally off the sums.
proof fn lemma_sums_remove(s: Seq<(String, TypeLineCounter)>, i: int)
    requires
        0 <= i < s.len(),
    ensures
        sum_counts(s.remove(i)) + s[i].1.count == sum_counts(s),
        sum_bytes(s.remove(i)) + s[i].1.bytes == sum_bytes(s),
    decreases s.len(),
{
    if i < s.len() - 1 {
        lemma_sums_remove(s.drop_last(), i);
        assert(s.remove(i).drop_last() =~= s.drop_last().remove(i));
    } else {
        assert(s.remove(i) =~= s.drop_last());
    }
}

/// Appending one entry adds its tally to the sums.
proof fn lemma_sums_push(s: Seq<(String, TypeLineCounter)>, x: (String, TypeLineCounter))
    ensures
        sum_counts(s.push(x)) == sum_counts(s) + x.1.count,
        sum_bytes(s.push(x)) == sum_bytes(s) + x.1.bytes,
{
    assert(s.push(x).drop_last() =~= s);
}

/// The mapping `m` after one more line of `bytes` bytes in category `k`.
pub open spec fn add_to(m: Map<Seq<char>, (nat, nat)>, k: Seq<char>, bytes: nat) -> Map<
    Seq<char>,
    (nat, nat),
> {
    if m.contains_key(k) {
        m.insert(k, (m[k].0 + 1, m[k].1 + bytes))
    } else {
        m.insert(k, (1, bytes))
    }
}

/// A mapping from category label to its tally, with unique labels.
pub struct TypeLineResults {
    entries: Vec<(String, TypeLineCounter)>,
    tally: Ghost<Map<Seq<char>, (nat, nat)>>,
}

impl View for TypeLineResults {
    type V = Map<Seq<char>, (nat, nat)>;

    /// Each label mapped to its (count, byte total).
    closed spec fn view(&self) -> Map<Seq<char>, (nat, nat)> {
        self.tally@
    }
}

impl TypeLineResults {
    /// The labels are unique, the ghost mapping mirrors the entries, and no
    /// category has fewer bytes than lines.
    pub closed spec fn wf(&self) -> bool {
        let e = self.entries@;
        let m = self.tally@;
        &&& forall|i: int, j: int|
            0 <= i < j < e.len() ==> #[trigger] e[i].0@ != #[trigger] e[j].0@
        &&& forall|i: int|
            0 <= i < e.len() ==> #[trigger] m.contains_key(e[i].0@) && m[e[i].0@] == (
                e[i].1.count as nat,
                e[i].1.bytes as nat,
            )
        &&& forall|k: Seq<char>|
            #[trigger] m.contains_key(k) ==> exists|i: int| 0 <= i < e.len() && e[i].0@ == k
        &&& m.dom().finite()
        &&& m.dom().len() == e.len()
        &&& forall|i: int| 0 <= i < e.len() ==> (#[trigger] e[i]).1.count <= e[i].1.bytes
    }

    /// Sum of the counts over all categories.
    pub closed spec fn total_count(&self) -> nat {
        sum_counts(self.entries@)
    }

    /// Sum of the byte totals over all categories.
    pub closed spec fn total_bytes(&self) -> nat {
        sum_bytes(self.entries@)
    }

    /// An empty mapping.
    pub fn new() -> (r: TypeLineResults)
        ensures
            r.wf(),
            r@ == Map::<Seq<char>, (nat, nat)>::empty(),
            r.total_count() == 0,
            r.total_bytes() == 0,
    {
        TypeLineResults { entries: Vec::new(), tally: Ghost(Map::empty()) }
    }

    fn find(&self, key: &String) -> (r: Option<usize>)
        requires
            self.wf(),
        ensures
            r.is_some() == self@.contains_key(key@),
            r.is_some() ==> r.unwrap() < self.entries@.len() && self.entries@[r.unwrap() as int].0@
                == key@,
    {
        let mut i: usize = 0;
        while i < self.entries.len()
            invariant
                self.wf(),
                i <= self.entries@.len(),
                forall|j: int| 0 <= j < i ==> self.entries@[j].0@ != key@,
            decreases self.entries@.len() - i,
        {
            if self.entries[i].0 == *key {
                return Some(i);
            }
            i = i + 1;
        }
        None
    }

    /// Number of categories.
    pub fn len(&self) -> (r: usize)
        requires
            self.wf(),
        ensures
            r == self@.len(),
    {
        self.entries.len()
    }

    /// The tally of category `key`, if it is present.
    pub fn get(&self, key: &str) -> (r: Option<TypeLineCounter>)
        requires
            self.wf(),
        ensures
            r.is_some() == self@.contains_key(key@),
            r.is_some() ==> self@[key@] == (r.unwrap().count as nat, r.unwrap().bytes as nat),
            r.is_some() ==> r.unwrap().count <= r.unwrap().bytes,
    {
        let k = key.to_owned();
        match self.find(&k) {
            Some(i) => Some(self.entries[i].1),
            None => None,
        }
    }

    /// Every category with its tally, each once, in no particular order.
    pub fn entries(&self) -> (r: Vec<(String, TypeLineCounter)>)
        requires
            self.wf(),
        ensures
            r@.len() == self@.len(),
            forall|i: int|
                0 <= i < r@.len() ==> #[trigger] self@.contains_key(r@[i].0@) && self@[r@[i].0@] == (
                    r@[i].1.count as nat,
                    r@[i].1.bytes as nat,
                ),
            forall|i: int, j: int| 0 <= i < j < r@.len() ==> #[trigger] r@[i].0@ != #[trigger] r@[j].0@,
            forall|k: Seq<char>|
                #[trigger] self@.contains_key(k) ==> exists|i: int| 0 <= i < r@.len() && r@[i].0@ == k,
    {
        let mut out: Vec<(String, TypeLineCounter)> = Vec::new();
        let mut i: usize = 0;
        while i < self.entries.len()
            invariant
                self.wf(),
                i <= self.entries@.len(),
                out@.len() == i,
                forall|j: int| 0 <= j < i ==> #[trigger] out@[j] == self.entries@[j],
            decreases self.entries@.len() - i,
        {
            let name = self.entries[i].0.clone();
            out.push((name, self.entries[i].1));
            i = i + 1;
        }
        assert(out@ =~= self.entries@);
        out
    }

    /// Records one more line of `bytes` bytes in category `key`, creating
    /// the category if it is new.
    pub fn add_line(&mut self, key: String, bytes: usize)
        requires
            old(self).wf(),
            bytes >= 1,
            old(self).total_count() < usize::MAX,
            old(self).total_bytes() + bytes <= usize::MAX,
        ensures
            final(self).wf(),
            final(self)@ == add_to(old(self)@, key@, bytes as nat),
            final(self).total_count() == old(self).total_count() + 1,
            final(self).total_bytes() == old(self).total_bytes() + bytes,
    {
        match self.find(&key) {
            Some(i) => {
                proof {
                    lemma_sums_remove(self.entries@, i as int);
                }
                let mut c = self.entries[i].1;
                c.add_bytes(bytes);
                let ghost old_e = self.entries@;
                let ghost k = key@;
                let name = self.entries[i].0.clone();
                self.entries.set(i, (name, c));
                proof {
                    lemma_sums_update(old_e, i as int, self.entries@[i as int]);
                    let m = self.tally@.insert(k, (c.count as nat, c.bytes as nat));
                    assert(m.dom() =~= self.tally@.dom());
                    self.tally = Ghost(m);
                    let e = self.entries@;
                    assert forall|j: int| 0 <= j < e.len() implies #[trigger] m.contains_key(e[j].0@)
                        && m[e[j].0@] == (e[j].1.count as nat, e[j].1.bytes as nat) by {
                        if j != i {
                            assert(old_e[j] == e[j]);
                        }
                    }
                    assert forall|k2: Seq<char>| #[trigger] m.contains_key(k2) implies exists|j: int|
                        0 <= j < e.len() && e[j].0@ == k2 by {
                        let j = choose|j: int| 0 <= j < old_e.len() && old_e[j].0@ == k2;
                        assert(e[j].0@ == k2);
                    }
                    assert forall|a: int, b: int| 0 <= a < b < e.len() implies #[trigger] e[a].0@
                        != #[trigger] e[b].0@ by {
                        assert(old_e[a].0@ != old_e[b].0@);
                    }
                }
            },
            None => {
                let ghost old_e = self.entries@;
                let ghost k = key@;
                let mut c = TypeLineCounter::new();
                c.add_bytes(bytes);
                self.entries.push((key, c));
                proof {
                    lemma_sums_push(old_e, (key, c));
                    let m = self.tally@.insert(k, (1, bytes as nat));
                    assert(m.dom() =~= self.tally@.dom().insert(k));
                    self.tally = Ghost(m);
                    let e = self.entries@;
                    assert forall|j: int| 0 <= j < e.len() implies #[trigger] m.contains_key(e[j].0@)
                        && m[e[j].0@] == (e[j].1.count as nat, e[j].1.bytes as nat) by {
                        if j < old_e.len() {
                            assert(old_e[j] == e[j]);
                        }
                    }
                    assert forall|k2: Seq<char>| #[trigger] m.contains_key(k2) implies exists|j: int|
                        0 <= j < e.len() && e[j].0@ == k2 by {
                        if k2 != k {
                            let j = choose|j: int| 0 <= j < old_e.len() && old_e[j].0@ == k2;
                            assert(e[j].0@ == k2);
                        } else {
                            assert(e[old_e.len() as int].0@ == k2);
                        }
                    }
                    assert forall|a: int, b: int| 0 <= a < b < e.len() implies #[trigger] e[a].0@
                        != #[trigger] e[b].0@ by {
                        if b < old_e.len() {
                            assert(old_e[a].0@ != old_e[b].0@);
                        } else {
                            assert(old_e[a] == e[a]);
                        }
                    }
                }
            },
        }
    }

    /// Takes category `key` out of the mapping, with its tally.
    pub fn remove_entry(&mut self, key: &str) -> (r: Option<(String, TypeLineCounter)>)
        requires
            old(self).wf(),
        ensures
            final(self).wf(),
            r.is_some() == old(self)@.contains_key(key@),
            final(self)@ == old(self)@.remove(key@),
            r.is_some() ==> {
                let (k, c) = r.unwrap();
                &&& k@ == key@
                &&& old(self)@[key@] == (c.count as nat, c.bytes as nat)
                &&& c.count <= c.bytes
                &&& final(self).total_count() + c.count == old(self).total_count()
                &&& final(self).total_bytes() + c.bytes == old(self).total_bytes()
            },
            r.is_none() ==> final(self).total_count() == old(self).total_count()
                && final(self).total_bytes() == old(self).total_bytes(),
    {
        let k = key.to_owned();
        match self.find(&k) {
            Some(i) => {
                let ghost old_e = self.entries@;
                let removed = self.entries.remove(i);
                proof {
                    lemma_sums_remove(old_e, i as int);
                    let m = self.tally@.remove(k@);
                    assert(m.dom() =~= self.tally@.dom().remove(k@));
                    self.tally = Ghost(m);
                    let e = self.entries@;
                    assert forall|j: int| 0 <= j < e.len() implies #[trigger] m.contains_key(e[j].0@)
                        && m[e[j].0@] == (e[j].1.count as nat, e[j].1.bytes as nat) by {
                        if j < i {
                            assert(old_e[j] == e[j]);
                            assert(old_e[j].0@ != old_e[i as int].0@);
                        } else {
                            assert(old_e[j + 1] == e[j]);
                            assert(old_e[i as int].0@ != old_e[j + 1].0@);
                        }
                    }
                    assert forall|k2: Seq<char>| #[trigger] m.contains_key(k2) implies exists|j: int|
                        0 <= j < e.len() && e[j].0@ == k2 by {
                        let j = choose|j: int| 0 <= j < old_e.len() && old_e[j].0@ == k2;
                        if j < i {
                            assert(e[j].0@ == k2);
                        } else {
                            assert(e[j - 1].0@ == k2);
                        }
                    }
                    assert forall|a: int, b: int| 0 <= a < b < e.len() implies #[trigger] e[a].0@
                        != #[trigger] e[b].0@ by {
                        let a0 = if a < i { a } else { a + 1 };
                        let b0 = if b < i { b } else { b + 1 };
                        assert(old_e[a0].0@ != old_e[b0].0@);
                    }
                }
                Some(removed)
            },
            None => {
                assert(self.tally@.remove(k@) =~= self.tally@);
                None
            },
        }
    }

    /// Puts category `key` into the mapping with tally `counter`; the
    /// category must not be present yet.
    pub fn insert(&mut self, key: String, counter: TypeLineCounter)
        requires
            old(self).wf(),
            !old(self)@.contains_key(key@),
            counter.count <= counter.bytes,
        ensures
            final(self).wf(),
            final(self)@ == old(self)@.insert(key@, (counter.count as nat, counter.bytes as nat)),
            final(self).total_count() == old(self).total_count() + counter.count,
            final(self).total_bytes() == old(self).total_bytes() + counter.bytes,
    {
        let ghost old_e = self.entries@;
        let ghost k = key@;
        self.entries.push((key, counter));
        proof {
            lemma_sums_push(old_e, (key, counter));
            let m = self.tally@.insert(k, (counter.count as nat, counter.bytes as nat));
            assert(m.dom() =~= self.tally@.dom().insert(k));
            self.tally = Ghost(m);
            let e = self.entries@;
            assert forall|j: int| 0 <= j < e.len() implies #[trigger] m.contains_key(e[j].0@)
                && m[e[j].0@] == (e[j].1.count as nat, e[j].1.bytes as nat) by {
                if j < old_e.len() {
                    assert(old_e[j] == e[j]);
                }
            }
            assert forall|k2: Seq<char>| #[trigger] m.contains_key(k2) implies exists|j: int|
                0 <= j < e.len() && e[j].0@ == k2 by {
                if k2 != k {
                    let j = choose|j: int| 0 <= j < old_e.len() && old_e[j].0@ == k2;
                    assert(e[j].0@ == k2);
                } else {
                    assert(e[old_e.len() as int].0@ == k2);
                }
            }
            assert forall|a: int, b: int| 0 <= a < b < e.len() implies #[trigger] e[a].0@
                != #[trigger] e[b].0@ by {
                if b < old_e.len() {
                    assert(old_e[a].0@ != old_e[b].0@);
                } else {
                    assert(old_e[a] == e[a]);
                }
            }
        }
    }
}

} // verus!

verus! {

/// What a worker's report contributes, one (category, bytes) pair per line.
pub open spec fn items_of(v: Seq<IntermediateTypeLineCounter>) -> Seq<(Seq<char>, nat)> {
    v.map_values(|c: IntermediateTypeLineCounter| (c.key@, c.bytes as nat))
}

} // verus!

verus! {

/// All the contributions of the workers' reports, report after report.
pub open spec fn parts_items(parts: Seq<Vec<IntermediateTypeLineCounter>>) -> Seq<(Seq<char>, nat)>
    decreases parts.len(),
{
    if parts.len() == 0 {
        Seq::empty()
    } else {
        parts_items(parts.drop_last()) + items_of(parts.last()@)
    }
}

} // verus!
