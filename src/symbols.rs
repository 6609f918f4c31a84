//! The symbol table: one record per distinct line, shared by every slot that
//! holds that line, found through a hash of the line's bytes.
use crate::model::{count, lemma_count_push, lemma_position_push, position};
use crate::occurrences::Occurrences;
use std::collections::hash_map::DefaultHasher;
use std::collections::HashMap;
use std::hash::Hasher;
use vstd::prelude::*;
use vstd::std_specs::hash::DefaultHasherAdditionalSpecFns;

verus! {

broadcast use vstd::std_specs::hash::group_hash_axioms;

/// The key under which a line is filed: std's default hash of its UTF-8 bytes.
pub open spec fn line_key(s: Seq<char>) -> u64 {
    DefaultHasher::spec_finish(seq![vstd::utf8::encode_utf8(s)])
}

/// Hashes the bytes of `s` with std's default hasher.
pub fn hash_str(s: &str) -> (r: u64)
    ensures
        r == line_key(s@),
{
    let mut hasher = DefaultHasher::new();
    hasher.write(s.as_bytes());
    proof {
        assert(hasher@ =~= seq![vstd::utf8::encode_utf8(s@)]);
    }
    hasher.finish()
}

/// The record of one distinct line.
pub struct SymbolEntry {
    /// How often the line occurs in the old text.
    pub oc: Occurrences,
    /// How often the line occurs in the new text.
    pub nc: Occurrences,
    /// The old line number (from 1) at which it was last seen; to be trusted
    /// only where it occurs once in the old text.
    pub olno: Option<usize>,
    /// The line itself.
    pub line: String,
}

/// No two records hold the same line.
pub open spec fn distinct(c: Seq<Seq<char>>) -> bool {
    forall|a: int, b: int|
        0 <= a < c.len() && 0 <= b < c.len() && a != b ==> #[trigger] c[a] != #[trigger] c[b]
}

proof fn lemma_distinct_push(c: Seq<Seq<char>>, x: Seq<char>)
    requires
        distinct(c),
        !c.contains(x),
    ensures
        distinct(c.push(x)),
{
    let d = c.push(x);
    assert forall|a: int, b: int| 0 <= a < d.len() && 0 <= b < d.len() && a != b implies #[trigger] d[a]
        != #[trigger] d[b] by {
        if a < c.len() && b < c.len() {
            assert(c[a] != c[b]);
        } else if a < c.len() {
            assert(c[a] == d[a]);
        } else {
            assert(c[b] == d[b]);
        }
    }
}

/// Each record is filed under the key of its line, and every filed handle
/// names a record.
pub open spec fn filed(c: Seq<Seq<char>>, buckets: Map<u64, Vec<usize>>) -> bool {
    &&& forall|h: int|
        0 <= h < c.len() ==> buckets.contains_key(line_key(#[trigger] c[h])) && buckets[line_key(
            c[h],
        )]@.contains(h as usize)
    &&& forall|key: u64, t: int|
        buckets.contains_key(key) && 0 <= t < buckets[key]@.len() ==> (#[trigger] buckets[key]@[t])
            < c.len()
}

/// The records, and an index from line keys to the records filed under them.
pub struct SymbolTable {
    pub(crate) entries: Vec<SymbolEntry>,
    pub(crate) buckets: HashMap<u64, Vec<usize>>,
    pub(crate) seen_old: Ghost<Seq<Seq<char>>>,
    pub(crate) seen_new: Ghost<Seq<Seq<char>>>,
}

impl SymbolTable {
    /// The text of each record, by handle.
    pub closed spec fn contents(&self) -> Seq<Seq<char>> {
        self.entries@.map_values(|e: SymbolEntry| e.line@)
    }

    /// The old lines observed so far, in order.
    pub closed spec fn seen_old(&self) -> Seq<Seq<char>> {
        self.seen_old@
    }

    /// The new lines observed so far, in order.
    pub closed spec fn seen_new(&self) -> Seq<Seq<char>> {
        self.seen_new@
    }

    /// The tallies of record `h` agree with the lines observed.
    pub open(crate) spec fn tally_ok(&self, h: int) -> bool {
        let e = self.entries@[h];
        &&& e.nc == Occurrences::of(count(self.seen_new@, e.line@))
        &&& e.oc == Occurrences::of(count(self.seen_old@, e.line@))
        &&& count(self.seen_old@, e.line@) == 1 ==> e.olno == Some(
            (position(self.seen_old@, e.line@) + 1) as usize,
        )
    }

    /// Every line observed has a record, and there are no more records than
    /// lines observed.
    pub open(crate) spec fn covers(&self) -> bool {
        &&& forall|x: Seq<char>| #[trigger] count(self.seen_new@, x) > 0 ==> self.contents().contains(x)
        &&& forall|x: Seq<char>| #[trigger] count(self.seen_old@, x) > 0 ==> self.contents().contains(x)
        &&& self.contents().len() <= self.seen_old@.len() + self.seen_new@.len()
    }

    /// Records have distinct lines, each is filed under its key, and each
    /// holds the tallies of its line over the lines observed.
    pub open(crate) spec fn wf(&self) -> bool {
        &&& distinct(self.contents())
        &&& filed(self.contents(), self.buckets@)
        &&& forall|h: int| 0 <= h < self.contents().len() ==> #[trigger] self.tally_ok(h)
        &&& self.covers()
    }

    /// An empty table.
    pub fn new() -> (r: SymbolTable)
        ensures
            r.wf(),
            r.contents().len() == 0,
            r.seen_old().len() == 0,
            r.seen_new().len() == 0,
    {
        let r = SymbolTable {
            entries: Vec::new(),
            buckets: HashMap::new(),
            seen_old: Ghost(Seq::empty()),
            seen_new: Ghost(Seq::empty()),
        };
        proof {
            assert(r.contents() =~= seq![]);
        }
        r
    }

    /// The number of records.
    pub fn len(&self) -> (r: usize)
        ensures
            r == self.contents().len(),
    {
        self.entries.len()
    }

    /// The record of handle `h`, with its tallies over the lines observed.
    pub fn entry(&self, h: usize) -> (e: &SymbolEntry)
        requires
            self.wf(),
            h < self.contents().len(),
        ensures
            e.line@ == self.contents()[h as int],
            e.oc == Occurrences::of(count(self.seen_old(), e.line@)),
            e.nc == Occurrences::of(count(self.seen_new(), e.line@)),
            count(self.seen_old(), e.line@) == 1 ==> e.olno == Some(
                (position(self.seen_old(), e.line@) + 1) as usize,
            ),
    {
        let e = &self.entries[h];
        assert(self.tally_ok(h as int));
        e
    }

    /// The handle of the record holding `line`, if there is one.
    pub fn find(&self, line: &String) -> (r: Option<usize>)
        requires
            self.wf(),
        ensures
            match r {
                Some(h) => h < self.contents().len() && self.contents()[h as int] == line@,
                None => !self.contents().contains(line@),
            },
    {
        let key = hash_str(line.as_str());
        match self.buckets.get(&key) {
            None => {
                proof {
                    if self.contents().contains(line@) {
                        let h = choose|h: int|
                            0 <= h < self.contents().len() && self.contents()[h] == line@;
                        assert(self.buckets@.contains_key(line_key(self.contents()[h])));
                    }
                    assert(!self.contents().contains(line@));
                }
                None
            },
            Some(bucket) => {
                let mut t: usize = 0;
                while t < bucket.len()
                    invariant
                        self.wf(),
                        self.buckets@.contains_key(key),
                        self.buckets@[key] == *bucket,
                        key == line_key(line@),
                        t <= bucket@.len(),
                        forall|u: int| 0 <= u < t ==> self.contents()[#[trigger] bucket@[u] as int] != line@,
                    decreases bucket@.len() - t,
                {
                    let h = bucket[t];
                    assert(self.buckets@[key]@[t as int] == h);
                    if self.entries[h].line == *line {
                        assert(self.contents()[h as int] == self.entries@[h as int].line@);
                        return Some(h);
                    }
                    t = t + 1;
                }
                proof {
                    assert(self.entries.len() == self.entries@.len());
                    if self.contents().contains(line@) {
                        let h = choose|h: int|
                            0 <= h < self.contents().len() && self.contents()[h] == line@;
                        assert(self.buckets@[line_key(self.contents()[h])]@.contains(h as usize));
                        let u = choose|u: int| 0 <= u < bucket@.len() && bucket@[u] == h as usize;
                        assert(self.contents()[bucket@[u] as int] != line@);
                    }
                    assert(!self.contents().contains(line@));
                }
                None
            },
        }
    }

    /// Records one more occurrence of `line` in the new text, creating its
    /// record on first sight, and returns the record's handle.
    #[verifier::rlimit(60)]
    pub fn observe_new(&mut self, line: &String) -> (h: usize)
        requires
            old(self).wf(),
            old(self).seen_old().len() + old(self).seen_new().len() < usize::MAX,
        ensures
            final(self).wf(),
            final(self).seen_new() == old(self).seen_new().push(line@),
            final(self).seen_old() == old(self).seen_old(),
            old(self).contents().is_prefix_of(final(self).contents()),
            h < final(self).contents().len(),
            final(self).contents()[h as int] == line@,
    {
        let ghost pre = *self;
        match self.find(line) {
            Some(h) => {
                self.entries[h].nc.increment();
                self.seen_new = Ghost(pre.seen_new@.push(line@));
                proof {
                    assert(self.contents() =~= pre.contents());
                    assert(pre.tally_ok(h as int));
                    assert(pre.contents()[h as int] == pre.entries@[h as int].line@);
                    self.lemma_others_tallied(pre, h as int, line@, true);
                    lemma_count_push(pre.seen_new@, line@, line@);
                    assert(self.tally_ok(h as int));
                    self.lemma_covers_after(pre, line@, true);
                }
                h
            },
            None => {
                proof {
                    if count(pre.seen_new@, line@) > 0 {
                        assert(pre.contents().contains(line@));
                    }
                    if count(pre.seen_old@, line@) > 0 {
                        assert(pre.contents().contains(line@));
                    }
                }
                let h = self.add(line, Occurrences::Zero, Occurrences::One, None);
                self.seen_new = Ghost(pre.seen_new@.push(line@));
                proof {
                    assert(self.contents()[h as int] == line@);
                    self.lemma_others_tallied(pre, h as int, line@, true);
                    lemma_count_push(pre.seen_new@, line@, line@);
                    assert(self.tally_ok(h as int));
                    lemma_distinct_push(pre.contents(), line@);
                    self.lemma_covers_after(pre, line@, true);
                }
                h
            },
        }
    }

    /// Records one more occurrence of `line` in the old text, at old line
    /// number `line_num`, creating its record on first sight, and returns the
    /// record's handle.
    #[verifier::rlimit(60)]
    pub fn observe_old(&mut self, line: &String, line_num: usize) -> (h: usize)
        requires
            old(self).wf(),
            old(self).seen_old().len() + old(self).seen_new().len() < usize::MAX,
            line_num == old(self).seen_old().len() + 1,
        ensures
            final(self).wf(),
            final(self).seen_old() == old(self).seen_old().push(line@),
            final(self).seen_new() == old(self).seen_new(),
            old(self).contents().is_prefix_of(final(self).contents()),
            h < final(self).contents().len(),
            final(self).contents()[h as int] == line@,
    {
        let ghost pre = *self;
        match self.find(line) {
            Some(h) => {
                self.entries[h].oc.increment();
                self.entries[h].olno = Some(line_num);
                self.seen_old = Ghost(pre.seen_old@.push(line@));
                proof {
                    assert(self.contents() =~= pre.contents());
                    assert(pre.tally_ok(h as int));
                    assert(pre.contents()[h as int] == pre.entries@[h as int].line@);
                    self.lemma_others_tallied(pre, h as int, line@, false);
                    lemma_count_push(pre.seen_old@, line@, line@);
                    if count(self.seen_old@, line@) == 1 {
                        lemma_position_push(pre.seen_old@, line@, line@);
                    }
                    assert(self.tally_ok(h as int));
                    self.lemma_covers_after(pre, line@, false);
                }
                h
            },
            None => {
                proof {
                    if count(pre.seen_new@, line@) > 0 {
                        assert(pre.contents().contains(line@));
                    }
                    if count(pre.seen_old@, line@) > 0 {
                        assert(pre.contents().contains(line@));
                    }
                }
                let h = self.add(line, Occurrences::One, Occurrences::Zero, Some(line_num));
                self.seen_old = Ghost(pre.seen_old@.push(line@));
                proof {
                    assert(self.contents()[h as int] == line@);
                    self.lemma_others_tallied(pre, h as int, line@, false);
                    lemma_count_push(pre.seen_old@, line@, line@);
                    if count(self.seen_old@, line@) == 1 {
                        lemma_position_push(pre.seen_old@, line@, line@);
                    }
                    assert(self.tally_ok(h as int));
                    lemma_distinct_push(pre.contents(), line@);
                    self.lemma_covers_after(pre, line@, false);
                }
                h
            },
        }
    }

    /// After one more line `x` is observed, the records other than `h`, the
    /// one that holds `x`, keep tallies that agree.
    proof fn lemma_others_tallied(&self, pre: SymbolTable, h: int, x: Seq<char>, on_new: bool)
        requires
            pre.wf(),
            on_new ==> self.seen_new@ == pre.seen_new@.push(x) && self.seen_old@ == pre.seen_old@,
            !on_new ==> self.seen_old@ == pre.seen_old@.push(x) && self.seen_new@ == pre.seen_new@,
            0 <= h < self.contents().len(),
            self.contents()[h] == x,
            pre.contents().is_prefix_of(self.contents()),
            self.contents().len() <= pre.contents().len() + 1,
            h >= pre.contents().len() ==> !pre.contents().contains(x),
            forall|g: int|
                0 <= g < pre.contents().len() && g != h ==> self.entries@[g] == pre.entries@[g],
            self.contents().len() == pre.contents().len() || h == pre.contents().len(),
        ensures
            forall|g: int|
                0 <= g < self.contents().len() && g != h ==> #[trigger] self.tally_ok(g),
    {
        assert forall|g: int|
            0 <= g < self.contents().len() && g != h implies #[trigger] self.tally_ok(g) by {
            let y = self.entries@[g].line@;
            assert(pre.tally_ok(g));
            assert(self.contents()[g] == y);
            assert(pre.contents()[g] == y);
            if h < pre.contents().len() {
                assert(pre.contents()[h] == x);
            }
            assert(y != x);
            if on_new {
                lemma_count_push(pre.seen_new@, x, y);
            } else {
                lemma_count_push(pre.seen_old@, x, y);
                if count(self.seen_old@, y) == 1 {
                    lemma_position_push(pre.seen_old@, x, y);
                }
            }
        }
    }

    /// After one more line `x` is observed, on the new side (`on_new`) or the
    /// old, the records still cover every line observed.
    proof fn lemma_covers_after(&self, pre: SymbolTable, x: Seq<char>, on_new: bool)
        requires
            pre.covers(),
            on_new ==> self.seen_new@ == pre.seen_new@.push(x) && self.seen_old@ == pre.seen_old@,
            !on_new ==> self.seen_old@ == pre.seen_old@.push(x) && self.seen_new@ == pre.seen_new@,
            self.contents().contains(x),
            pre.contents().is_prefix_of(self.contents()),
            self.contents().len() <= pre.contents().len() + 1,
        ensures
            self.covers(),
    {
        assert forall|y: Seq<char>| #[trigger] count(self.seen_new@, y) > 0 implies self.contents().contains(y) by {
            if on_new {
                lemma_count_push(pre.seen_new@, x, y);
            }
            if y != x {
                let k = choose|k: int| 0 <= k < pre.contents().len() && pre.contents()[k] == y;
                assert(self.contents()[k] == y);
            }
        }
        assert forall|y: Seq<char>| #[trigger] count(self.seen_old@, y) > 0 implies self.contents().contains(y) by {
            if !on_new {
                lemma_count_push(pre.seen_old@, x, y);
            }
            if y != x {
                let k = choose|k: int| 0 <= k < pre.contents().len() && pre.contents()[k] == y;
                assert(self.contents()[k] == y);
            }
        }
    }

    /// Adds a record for a line that has none, with the given tallies.
    fn add(&mut self, line: &String, oc: Occurrences, nc: Occurrences, olno: Option<usize>) -> (h:
        usize)
        requires
            !old(self).contents().contains(line@),
            old(self).contents().len() < usize::MAX,
            filed(old(self).contents(), old(self).buckets@),
        ensures
            h == old(self).contents().len(),
            final(self).entries@ == old(self).entries@.push(
                SymbolEntry { oc, nc, olno, line: final(self).entries@[h as int].line },
            ),
            final(self).contents() == old(self).contents().push(line@),
            final(self).seen_old == old(self).seen_old,
            final(self).seen_new == old(self).seen_new,
            filed(final(self).contents(), final(self).buckets@),
    {
        let key = hash_str(line.as_str());
        let h = self.entries.len();
        let ghost old_buckets = self.buckets@;
        let ghost old_contents = self.contents();
        let mut bucket = match self.buckets.remove(&key) {
            Some(b) => b,
            None => Vec::new(),
        };
        proof {
            if old_buckets.contains_key(key) {
                assert(bucket == old_buckets[key]);
            }
        }
        let ghost old_bucket = bucket@;
        bucket.push(h);
        self.buckets.insert(key, bucket);
        self.entries.push(SymbolEntry { oc, nc, olno, line: line.clone() });
        proof {
            assert(self.contents() =~= old_contents.push(line@));
            assert forall|g: int|
                0 <= g < self.contents().len() implies self.buckets@.contains_key(
                line_key(#[trigger] self.contents()[g]),
            ) && self.buckets@[line_key(self.contents()[g])]@.contains(g as usize) by {
                if g < h {
                    assert(self.contents()[g] == old_contents[g]);
                    let k2 = line_key(old_contents[g]);
                    assert(old_buckets[k2]@.contains(g as usize));
                    if k2 == key {
                        let u = choose|u: int|
                            0 <= u < old_buckets[k2]@.len() && old_buckets[k2]@[u] == g as usize;
                        assert(self.buckets@[key]@[u] == g as usize);
                    }
                } else {
                    assert(self.buckets@[key]@[old_bucket.len() as int] == h);
                }
            }
            assert forall|k2: u64, t: int|
                self.buckets@.contains_key(k2) && 0 <= t < self.buckets@[k2]@.len() implies (
            #[trigger] self.buckets@[k2]@[t]) < self.contents().len() by {
                if k2 == key && t < old_bucket.len() {
                    assert(old_buckets[key]@[t] == self.buckets@[k2]@[t]);
                } else if k2 != key {
                    assert(old_buckets[k2]@[t] == self.buckets@[k2]@[t]);
                }
            }
        }
        h
    }
}

} // verus!
