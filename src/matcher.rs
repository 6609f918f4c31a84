//! The matcher: builds the slots of both texts, resolves them pass by pass,
//! and reports every line.
use crate::model::{
    backward, diff, emission, emit_upto, forward, gap_edit, gap_edits, lemma_backward_linked, lemma_count_one,
    lemma_forward_linked, lemma_linked_lines, lemma_position_at, linked, lines_of, position,
    seeded, unique_common, EditView, Links,
};
use crate::occurrences::Occurrences;
use crate::symbols::{distinct, SymbolTable};
use vstd::prelude::*;

verus! {

/// A slot of either text: a line not yet matched, holding the handle of its
/// record, or one matched to the slot of that index in the other text.
#[derive(Debug, Clone, Copy, PartialEq, Eq)]
pub enum Symbol {
    Entry(usize),
    Reference(usize),
}

impl Symbol {
    /// The slot as a link: `None` while unresolved.
    pub open spec fn link(self) -> Option<int> {
        match self {
            Symbol::Entry(_) => None,
            Symbol::Reference(j) => Some(j as int),
        }
    }

    /// The record handle of an unresolved slot.
    pub fn as_entry_mut(&mut self) -> (r: &mut usize)
        requires
            *old(self) is Entry,
        ensures
            *r == (*old(self))->Entry_0,
            *final(self) == Symbol::Entry(*final(r)),
    {
        match self {
            Symbol::Entry(h) => h,
            Symbol::Reference(j) => j,
        }
    }
}

/// The slots as links.
pub open spec fn links_of(s: Seq<Symbol>) -> Seq<Option<int>> {
    s.map_values(|x: Symbol| x.link())
}

/// Each unresolved slot stands for a line of `text` and holds the handle of
/// the record of that line.
pub open spec fn agree(slots: Seq<Symbol>, text: Seq<Seq<char>>, c: Seq<Seq<char>>) -> bool {
    forall|p: int|
        0 <= p < slots.len() && (#[trigger] slots[p]) is Entry ==> 1 <= p <= text.len()
            && slots[p]->Entry_0 < c.len() && c[slots[p]->Entry_0 as int] == text[p - 1]
}

/// Slots as population leaves them: both sentinels, and every line unresolved.
pub open spec fn populated(slots: Seq<Symbol>, text: Seq<Seq<char>>, other_len: int, c: Seq<Seq<char>>) -> bool {
    &&& slots.len() == text.len() + 2
    &&& slots[0] == Symbol::Reference(0)
    &&& slots[text.len() + 1int] == Symbol::Reference((other_len + 1) as usize)
    &&& forall|p: int| 1 <= p <= text.len() ==> (#[trigger] slots[p]) is Entry
    &&& agree(slots, text, c)
}

proof fn lemma_agree_grow(slots: Seq<Symbol>, text: Seq<Seq<char>>, c1: Seq<Seq<char>>, c2: Seq<Seq<char>>)
    requires
        agree(slots, text, c1),
        c1.is_prefix_of(c2),
    ensures
        agree(slots, text, c2),
{
    assert forall|p: int| 0 <= p < slots.len() && (#[trigger] slots[p]) is Entry implies 1 <= p <= text.len()
        && slots[p]->Entry_0 < c2.len() && c2[slots[p]->Entry_0 as int] == text[p - 1] by {
        assert(c1[slots[p]->Entry_0 as int] == c2.subrange(0, c1.len() as int)[slots[p]->Entry_0 as int]);
    }
}

/// Passes one and two: every new line, then every old line, is observed in the
/// symbol table and gets an unresolved slot.
fn populate(old_lines: &Vec<String>, new_lines: &Vec<String>) -> (res: (SymbolTable, Vec<Symbol>, Vec<Symbol>))
    requires
        old_lines.len() + new_lines.len() + 2 <= usize::MAX,
    ensures
        res.0.wf(),
        res.0.seen_old() == lines_of(old_lines@),
        res.0.seen_new() == lines_of(new_lines@),
        populated(res.1@, lines_of(new_lines@), old_lines.len() as int, res.0.contents()),
        populated(res.2@, lines_of(old_lines@), new_lines.len() as int, res.0.contents()),
{
    let ghost old_l = lines_of(old_lines@);
    let ghost new_l = lines_of(new_lines@);
    let mut table = SymbolTable::new();
    let mut na: Vec<Symbol> = Vec::new();
    na.push(Symbol::Reference(0));
    let mut i: usize = 0;
    while i < new_lines.len()
        invariant
            old_lines.len() + new_lines.len() + 2 <= usize::MAX,
            new_l == lines_of(new_lines@),
            i <= new_lines.len(),
            table.wf(),
            table.seen_new() == new_l.take(i as int),
            table.seen_old().len() == 0,
            na@.len() == i + 1,
            na@[0] == Symbol::Reference(0),
            forall|p: int| 1 <= p <= i ==> (#[trigger] na@[p]) is Entry,
            agree(na@, new_l, table.contents()),
        decreases new_lines.len() - i,
    {
        let ghost c0 = table.contents();
        let h = table.observe_new(&new_lines[i]);
        na.push(Symbol::Entry(h));
        proof {
            assert(table.seen_new() =~= new_l.take(i + 1));
            lemma_agree_grow(na@.drop_last(), new_l, c0, table.contents());
            assert forall|p: int| 0 <= p < na@.len() && (#[trigger] na@[p]) is Entry implies 1 <= p <= new_l.len()
                && na@[p]->Entry_0 < table.contents().len() && table.contents()[na@[p]->Entry_0 as int] == new_l[p - 1] by {
                if p < na@.len() - 1 {
                    assert(na@.drop_last()[p] == na@[p]);
                }
            }
        }
        i = i + 1;
    }
    na.push(Symbol::Reference(old_lines.len() + 1));
    let mut oa: Vec<Symbol> = Vec::new();
    oa.push(Symbol::Reference(0));
    let mut k: usize = 0;
    while k < old_lines.len()
        invariant
            old_lines.len() + new_lines.len() + 2 <= usize::MAX,
            old_l == lines_of(old_lines@),
            new_l == lines_of(new_lines@),
            k <= old_lines.len(),
            table.wf(),
            table.seen_new() == new_l,
            table.seen_old() == old_l.take(k as int),
            oa@.len() == k + 1,
            oa@[0] == Symbol::Reference(0),
            forall|p: int| 1 <= p <= k ==> (#[trigger] oa@[p]) is Entry,
            agree(oa@, old_l, table.contents()),
            populated(na@, new_l, old_lines.len() as int, table.contents()),
        decreases old_lines.len() - k,
    {
        let ghost c0 = table.contents();
        let h = table.observe_old(&old_lines[k], k + 1);
        oa.push(Symbol::Entry(h));
        proof {
            assert(table.seen_old() =~= old_l.take(k + 1));
            lemma_agree_grow(oa@.drop_last(), old_l, c0, table.contents());
            lemma_agree_grow(na@, new_l, c0, table.contents());
            assert forall|p: int| 0 <= p < oa@.len() && (#[trigger] oa@[p]) is Entry implies 1 <= p <= old_l.len()
                && oa@[p]->Entry_0 < table.contents().len() && table.contents()[oa@[p]->Entry_0 as int] == old_l[p - 1] by {
                if p < oa@.len() - 1 {
                    assert(oa@.drop_last()[p] == oa@[p]);
                }
            }
        }
        k = k + 1;
    }
    oa.push(Symbol::Reference(new_lines.len() + 1));
    proof {
        assert(table.seen_new() =~= new_l);
        assert(table.seen_old() =~= old_l);
        assert forall|p: int| 0 <= p < oa@.len() && (#[trigger] oa@[p]) is Entry implies 1 <= p <= old_l.len()
            && oa@[p]->Entry_0 < table.contents().len() && table.contents()[oa@[p]->Entry_0 as int] == old_l[p - 1] by {
            assert(oa@.drop_last()[p] == oa@[p]);
        }
        assert forall|p: int| 0 <= p < na@.len() && (#[trigger] na@[p]) is Entry implies 1 <= p <= new_l.len()
            && na@[p]->Entry_0 < table.contents().len() && table.contents()[na@[p]->Entry_0 as int] == new_l[p - 1] by {
            assert(na@.drop_last()[p] == na@[p]);
        }
    }
    (table, na, oa)
}

/// Pass three: each new line that occurs once in each text is linked, both
/// ways, to its old counterpart.
fn link_unique(
    table: &SymbolTable,
    na: &mut Vec<Symbol>,
    oa: &mut Vec<Symbol>,
    Ghost(old_l): Ghost<Seq<Seq<char>>>,
    Ghost(new_l): Ghost<Seq<Seq<char>>>,
)
    requires
        table.wf(),
        table.seen_old() == old_l,
        table.seen_new() == new_l,
        old_l.len() + new_l.len() + 2 <= usize::MAX,
        populated(old(na)@, new_l, old_l.len() as int, table.contents()),
        populated(old(oa)@, old_l, new_l.len() as int, table.contents()),
    ensures
        links_of(final(na)@) == seeded(old_l, new_l).na,
        links_of(final(oa)@) == seeded(old_l, new_l).oa,
        final(na)@.len() == new_l.len() + 2,
        final(oa)@.len() == old_l.len() + 2,
        agree(final(na)@, new_l, table.contents()),
        agree(final(oa)@, old_l, table.contents()),
{
    let ghost na0 = na@;
    let ghost oa0 = oa@;
    let ghost m = old_l.len() as int;
    let ghost n = new_l.len() as int;
    let last = na.len() - 1;
    let mut p: usize = 1;
    proof {
        assert forall|k: int| 1 <= k <= m && unique_common(old_l, new_l, old_l[k - 1]) implies position(
            new_l,
            #[trigger] old_l[k - 1],
        ) >= 0 by {
            lemma_count_one(new_l, old_l[k - 1]);
        }
    }
    while p < last
        invariant
            table.wf(),
            table.seen_old() == old_l,
            table.seen_new() == new_l,
            old_l.len() + new_l.len() + 2 <= usize::MAX,
            populated(na0, new_l, m, table.contents()),
            populated(oa0, old_l, n, table.contents()),
            m == old_l.len(),
            n == new_l.len(),
            last == n + 1,
            1 <= p <= last,
            na@.len() == n + 2,
            oa@.len() == m + 2,
            forall|q: int|
                0 <= q < n + 2 ==> #[trigger] na@[q] == if 1 <= q < p && unique_common(
                    old_l,
                    new_l,
                    new_l[q - 1],
                ) {
                    Symbol::Reference((position(old_l, new_l[q - 1]) + 1) as usize)
                } else {
                    na0[q]
                },
            forall|k: int|
                0 <= k < m + 2 ==> #[trigger] oa@[k] == if 1 <= k <= m && unique_common(
                    old_l,
                    new_l,
                    old_l[k - 1],
                ) && position(new_l, old_l[k - 1]) + 1 < p {
                    Symbol::Reference((position(new_l, old_l[k - 1]) + 1) as usize)
                } else {
                    oa0[k]
                },
        decreases last - p,
    {
        let ghost x = new_l[p - 1];
        assert(na@[p as int] == na0[p as int]);
        let h: usize = *na[p].as_entry_mut();
        let e = table.entry(h);
        proof {
            assert(table.contents()[h as int] == x);
        }
        if e.oc == Occurrences::One && e.nc == Occurrences::One {
            let olno = e.olno.unwrap();
            proof {
                lemma_count_one(old_l, x);
                lemma_position_at(new_l, x, p - 1);
            }
            na.set(p, Symbol::Reference(olno));
            oa.set(olno, Symbol::Reference(p));
            proof {
                assert forall|k: int| 0 <= k < m + 2 implies #[trigger] oa@[k] == if 1 <= k <= m
                    && unique_common(old_l, new_l, old_l[k - 1]) && position(new_l, old_l[k - 1]) + 1 < p + 1 {
                    Symbol::Reference((position(new_l, old_l[k - 1]) + 1) as usize)
                } else {
                    oa0[k]
                } by {
                    if 1 <= k <= m && k != olno && unique_common(old_l, new_l, old_l[k - 1]) {
                        lemma_count_one(new_l, old_l[k - 1]);
                        lemma_count_one(old_l, old_l[k - 1]);
                        lemma_position_at(old_l, old_l[k - 1], k - 1);
                    }
                }
            }
        } else {
            proof {
                assert forall|k: int| 0 <= k < m + 2 implies #[trigger] oa@[k] == if 1 <= k <= m
                    && unique_common(old_l, new_l, old_l[k - 1]) && position(new_l, old_l[k - 1]) + 1 < p + 1 {
                    Symbol::Reference((position(new_l, old_l[k - 1]) + 1) as usize)
                } else {
                    oa0[k]
                } by {
                    if 1 <= k <= m && unique_common(old_l, new_l, old_l[k - 1]) {
                        lemma_count_one(new_l, old_l[k - 1]);
                    }
                }
            }
        }
        p = p + 1;
    }
    proof {
        let l = seeded(old_l, new_l);
        assert forall|q: int| 0 <= q < n + 2 implies #[trigger] links_of(na@)[q] == l.na[q] by {
            if 1 <= q <= n && unique_common(old_l, new_l, new_l[q - 1]) {
                lemma_count_one(old_l, new_l[q - 1]);
            }
        }
        assert forall|k: int| 0 <= k < m + 2 implies #[trigger] links_of(oa@)[k] == l.oa[k] by {
            if 1 <= k <= m && unique_common(old_l, new_l, old_l[k - 1]) {
                lemma_count_one(new_l, old_l[k - 1]);
            }
        }
        assert(links_of(na@) =~= l.na);
        assert(links_of(oa@) =~= l.oa);
    }
}

/// Pass four: walking the new slots upwards, a link from slot `i` to old slot
/// `j` is extended to slots `i + 1` and `j + 1` where both are unresolved and
/// hold the same record.
fn propagate_forward(
    na: &mut Vec<Symbol>,
    oa: &mut Vec<Symbol>,
    Ghost(old_l): Ghost<Seq<Seq<char>>>,
    Ghost(new_l): Ghost<Seq<Seq<char>>>,
    Ghost(c): Ghost<Seq<Seq<char>>>,
)
    requires
        distinct(c),
        old_l.len() + new_l.len() + 2 <= usize::MAX,
        old(na)@.len() == new_l.len() + 2,
        old(oa)@.len() == old_l.len() + 2,
        links_of(old(na)@) == seeded(old_l, new_l).na,
        links_of(old(oa)@) == seeded(old_l, new_l).oa,
        agree(old(na)@, new_l, c),
        agree(old(oa)@, old_l, c),
    ensures
        final(na)@.len() == new_l.len() + 2,
        final(oa)@.len() == old_l.len() + 2,
        links_of(final(na)@) == forward(old_l, new_l, (new_l.len() + 1) as nat).na,
        links_of(final(oa)@) == forward(old_l, new_l, (new_l.len() + 1) as nat).oa,
        agree(final(na)@, new_l, c),
        agree(final(oa)@, old_l, c),
{
    let ghost m = old_l.len() as int;
    let ghost n = new_l.len() as int;
    let end = na.len() - 1;
    let mut i: usize = 0;
    while i < end
        invariant
            distinct(c),
            old_l.len() + new_l.len() + 2 <= usize::MAX,
            m == old_l.len(),
            n == new_l.len(),
            end == n + 1,
            0 <= i <= end,
            na@.len() == n + 2,
            oa@.len() == m + 2,
            links_of(na@) == forward(old_l, new_l, i as nat).na,
            links_of(oa@) == forward(old_l, new_l, i as nat).oa,
            agree(na@, new_l, c),
            agree(oa@, old_l, c),
        decreases end - i,
    {
        let ghost s = forward(old_l, new_l, i as nat);
        proof {
            lemma_forward_linked(old_l, new_l, i as nat);
            assert(links_of(na@)[i as int] == s.na[i as int]);
        }
        match na[i] {
            Symbol::Reference(j) => {
                proof {
                    if i == 0 {
                        assert(s.na[0] == Some(0int));
                    } else {
                        lemma_linked_lines(s, m, n, i as int);
                    }
                    assert(links_of(na@)[i + 1] == s.na[i + 1]);
                    assert(links_of(oa@)[j + 1] == s.oa[j + 1]);
                }
                match na[i + 1] {
                    Symbol::Entry(h1) => match oa[j + 1] {
                        Symbol::Entry(h2) => {
                            proof {
                                assert(na@[i + 1] is Entry);
                                assert(oa@[j + 1] is Entry);
                            }
                            if h1 == h2 {
                                na.set(i + 1, Symbol::Reference(j + 1));
                                oa.set(j + 1, Symbol::Reference(i + 1));
                                proof {
                                    assert(links_of(na@) =~= s.na.update(i + 1, Some(j + 1)));
                                    assert(links_of(oa@) =~= s.oa.update(j + 1, Some(i + 1)));
                                }
                            } else {
                                proof {
                                    assert(c[h1 as int] != c[h2 as int]);
                                }
                            }
                        },
                        Symbol::Reference(_) => {},
                    },
                    Symbol::Reference(_) => {},
                }
            },
            Symbol::Entry(_) => {},
        }
        i = i + 1;
    }
}

/// Pass five: walking the new slots downwards, a link from slot `i` to old
/// slot `j` is extended to slots `i - 1` and `j - 1` where both are unresolved
/// and hold the same record.
fn propagate_backward(
    na: &mut Vec<Symbol>,
    oa: &mut Vec<Symbol>,
    Ghost(old_l): Ghost<Seq<Seq<char>>>,
    Ghost(new_l): Ghost<Seq<Seq<char>>>,
    Ghost(c): Ghost<Seq<Seq<char>>>,
)
    requires
        distinct(c),
        old_l.len() + new_l.len() + 2 <= usize::MAX,
        old(na)@.len() == new_l.len() + 2,
        old(oa)@.len() == old_l.len() + 2,
        links_of(old(na)@) == backward(old_l, new_l, 0).na,
        links_of(old(oa)@) == backward(old_l, new_l, 0).oa,
        agree(old(na)@, new_l, c),
        agree(old(oa)@, old_l, c),
    ensures
        final(na)@.len() == new_l.len() + 2,
        final(oa)@.len() == old_l.len() + 2,
        links_of(final(na)@) == backward(old_l, new_l, new_l.len()).na,
        links_of(final(oa)@) == backward(old_l, new_l, new_l.len()).oa,
{
    let ghost m = old_l.len() as int;
    let ghost n = new_l.len() as int;
    let mut i: usize = na.len() - 2;
    while i > 0
        invariant
            distinct(c),
            old_l.len() + new_l.len() + 2 <= usize::MAX,
            m == old_l.len(),
            n == new_l.len(),
            0 <= i <= n,
            na@.len() == n + 2,
            oa@.len() == m + 2,
            links_of(na@) == backward(old_l, new_l, (n - i) as nat).na,
            links_of(oa@) == backward(old_l, new_l, (n - i) as nat).oa,
            agree(na@, new_l, c),
            agree(oa@, old_l, c),
        decreases i,
    {
        let ghost s = backward(old_l, new_l, (n - i) as nat);
        proof {
            lemma_backward_linked(old_l, new_l, (n - i) as nat);
            assert(links_of(na@)[i as int] == s.na[i as int]);
            assert(backward(old_l, new_l, (n - i + 1) as nat) == crate::model::backward_step(old_l, new_l, s, i as int));
        }
        match na[i] {
            Symbol::Reference(j) => {
                proof {
                    lemma_linked_lines(s, m, n, i as int);
                    assert(links_of(na@)[i - 1] == s.na[i - 1]);
                    assert(links_of(oa@)[j - 1] == s.oa[j - 1]);
                }
                match na[i - 1] {
                    Symbol::Entry(h1) => match oa[j - 1] {
                        Symbol::Entry(h2) => {
                            proof {
                                assert(na@[i - 1] is Entry);
                                assert(oa@[j - 1] is Entry);
                            }
                            if h1 == h2 {
                                na.set(i - 1, Symbol::Reference(j - 1));
                                oa.set(j - 1, Symbol::Reference(i - 1));
                                proof {
                                    assert(links_of(na@) =~= s.na.update(i - 1, Some(j - 1)));
                                    assert(links_of(oa@) =~= s.oa.update(j - 1, Some(i - 1)));
                                }
                            } else {
                                proof {
                                    assert(c[h1 as int] != c[h2 as int]);
                                }
                            }
                        },
                        Symbol::Reference(_) => {},
                    },
                    Symbol::Reference(_) => {},
                }
            },
            Symbol::Entry(_) => {},
        }
        i = i - 1;
    }
}

/// One reported line, with line numbers counted from 1.
#[derive(Debug, Clone, PartialEq, Eq)]
pub enum Edit {
    /// A line of the new text only.
    Insert { new_line: usize, content: String },
    /// A line of the old text only.
    Delete { old_line: usize, content: String },
    /// A line of both texts, out of order.
    Move { old_line: usize, new_line: usize, content: String },
    /// A line of both texts, in order.
    Unchanged { old_line: usize, new_line: usize, content: String },
}

impl View for Edit {
    type V = EditView;

    open spec fn view(&self) -> EditView {
        match self {
            Edit::Insert { new_line, content } => EditView::Insert {
                new_line: *new_line as int,
                content: content@,
            },
            Edit::Delete { old_line, content } => EditView::Delete {
                old_line: *old_line as int,
                content: content@,
            },
            Edit::Move { old_line, new_line, content } => EditView::Move {
                old_line: *old_line as int,
                new_line: *new_line as int,
                content: content@,
            },
            Edit::Unchanged { old_line, new_line, content } => EditView::Unchanged {
                old_line: *old_line as int,
                new_line: *new_line as int,
                content: content@,
            },
        }
    }
}

/// The edits as their views.
pub open spec fn views(s: Seq<Edit>) -> Seq<EditView> {
    s.map_values(|e: Edit| e@)
}

proof fn lemma_views_push(s: Seq<Edit>, e: Edit)
    ensures
        views(s.push(e)) == views(s).push(e@),
{
    assert(views(s.push(e)) =~= views(s).push(e@));
}

/// Reports old slots `a..b` in order: a delete for each unresolved one, a
/// move for each linked one.
fn push_gap(edits: &mut Vec<Edit>, old_lines: &Vec<String>, oa: &Vec<Symbol>, a: usize, b: usize)
    requires
        oa@.len() == old_lines@.len() + 2,
        1 <= a,
        b <= old_lines@.len() + 1,
    ensures
        a <= b ==> views(final(edits)@) == views(old(edits)@) + gap_edits(lines_of(old_lines@), links_of(oa@), a as int, b as int),
        b < a ==> final(edits)@ == old(edits)@,
{
    let ghost base = views(edits@);
    let mut k: usize = a;
    proof {
        assert(base =~= base + gap_edits(lines_of(old_lines@), links_of(oa@), a as int, a as int));
    }
    while k < b
        invariant
            oa@.len() == old_lines@.len() + 2,
            1 <= a,
            b <= old_lines@.len() + 1,
            a <= b ==> a <= k <= b,
            b < a ==> k == a && edits@ == old(edits)@,
            base == views(old(edits)@),
            views(edits@) == base + gap_edits(lines_of(old_lines@), links_of(oa@), a as int, k as int),
        decreases b - k,
    {
        let e = match oa[k] {
            Symbol::Reference(p) => Edit::Move { old_line: k, new_line: p, content: old_lines[k - 1].clone() },
            Symbol::Entry(_) => Edit::Delete { old_line: k, content: old_lines[k - 1].clone() },
        };
        proof {
            lemma_views_push(edits@, e);
            assert(links_of(oa@)[k as int] == oa@[k as int].link());
            assert(e@ == gap_edit(lines_of(old_lines@), links_of(oa@), k as int));
            assert(gap_edits(lines_of(old_lines@), links_of(oa@), a as int, k + 1) == gap_edits(lines_of(old_lines@), links_of(oa@), a as int, k as int).push(e@));
        }
        edits.push(e);
        k = k + 1;
    }
}

/// Pass six: reports every line of both texts, given the resolved slots.
fn emit(old_lines: &Vec<String>, new_lines: &Vec<String>, na: &Vec<Symbol>, oa: &Vec<Symbol>) -> (r: Vec<Edit>)
    requires
        old_lines@.len() + new_lines@.len() + 2 <= usize::MAX,
        na@.len() == new_lines@.len() + 2,
        oa@.len() == old_lines@.len() + 2,
        linked(Links { oa: links_of(oa@), na: links_of(na@) }, old_lines@.len() as int, new_lines@.len() as int),
    ensures
        views(r@) == emission(lines_of(old_lines@), lines_of(new_lines@), Links { oa: links_of(oa@), na: links_of(na@) }),
{
    let ghost old_l = lines_of(old_lines@);
    let ghost new_l = lines_of(new_lines@);
    let ghost l = Links { oa: links_of(oa@), na: links_of(na@) };
    let mut edits: Vec<Edit> = Vec::new();
    let mut next: usize = 1;
    let mut i: usize = 1;
    let end = na.len() - 1;
    while i < end
        invariant
            old_lines@.len() + new_lines@.len() + 2 <= usize::MAX,
            na@.len() == new_lines@.len() + 2,
            oa@.len() == old_lines@.len() + 2,
            old_l == lines_of(old_lines@),
            new_l == lines_of(new_lines@),
            l == (Links { oa: links_of(oa@), na: links_of(na@) }),
            linked(l, old_lines@.len() as int, new_lines@.len() as int),
            end == new_lines@.len() + 1,
            1 <= i <= end,
            1 <= next <= old_lines@.len() + 1,
            next == emit_upto(old_l, new_l, l, (i - 1) as nat).next,
            views(edits@) == emit_upto(old_l, new_l, l, (i - 1) as nat).edits,
        decreases end - i,
    {
        let ghost e0 = emit_upto(old_l, new_l, l, (i - 1) as nat);
        proof {
            assert(l.na[i as int] == na@[i as int].link());
        }
        match na[i] {
            Symbol::Entry(_) => {
                let e = Edit::Insert { new_line: i, content: new_lines[i - 1].clone() };
                proof {
                    lemma_views_push(edits@, e);
                }
                edits.push(e);
            },
            Symbol::Reference(j) => {
                proof {
                    lemma_linked_lines(l, old_lines@.len() as int, new_lines@.len() as int, i as int);
                }
                if j >= next {
                    push_gap(&mut edits, old_lines, oa, next, j);
                    let e = Edit::Unchanged { old_line: j, new_line: i, content: new_lines[i - 1].clone() };
                    proof {
                        lemma_views_push(edits@, e);
                    }
                    edits.push(e);
                    next = j + 1;
                }
            },
        }
        i = i + 1;
    }
    push_gap(&mut edits, old_lines, oa, next, old_lines.len() + 1);
    edits
}

/// The line-level difference of two texts, given as their lines: every new
/// line is reported once, as inserted, unchanged, or moved from an old line;
/// every old line once, as deleted, unchanged or moved.
pub fn heckel_diff(old_lines: &Vec<String>, new_lines: &Vec<String>) -> (r: Vec<Edit>)
    requires
        old_lines@.len() + new_lines@.len() + 2 <= usize::MAX,
    ensures
        views(r@) == diff(lines_of(old_lines@), lines_of(new_lines@)),
{
    let ghost old_l = lines_of(old_lines@);
    let ghost new_l = lines_of(new_lines@);
    let (table, mut na, mut oa) = populate(old_lines, new_lines);
    link_unique(&table, &mut na, &mut oa, Ghost(old_l), Ghost(new_l));
    propagate_forward(&mut na, &mut oa, Ghost(old_l), Ghost(new_l), Ghost(table.contents()));
    propagate_backward(&mut na, &mut oa, Ghost(old_l), Ghost(new_l), Ghost(table.contents()));
    proof {
        lemma_backward_linked(old_l, new_l, new_l.len());
    }
    emit(old_lines, new_lines, &na, &oa)
}

} // verus!
