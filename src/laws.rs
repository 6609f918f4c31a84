//! What holds of every difference the matcher reports.
use crate::matcher::views;
use crate::model::{
    backward, count, diff, emit_upto, forward, gap_edit, gap_edits, lemma_backward_linked,
    lemma_linked_lines, lemma_position_at, linked, lines_of, resolved, seeded,
    unique_common, EditView, Emission, Links,
};
use crate::matcher::Edit;
use vstd::prelude::*;

verus! {

/// The edit reports old line `k`.
pub open spec fn names_old(e: EditView, k: int) -> bool {
    match e {
        EditView::Insert { .. } => false,
        EditView::Delete { old_line, .. } => old_line == k,
        EditView::Move { old_line, .. } => old_line == k,
        EditView::Unchanged { old_line, .. } => old_line == k,
    }
}

/// The edit reports new line `p`.
pub open spec fn names_new(e: EditView, p: int) -> bool {
    match e {
        EditView::Insert { new_line, .. } => new_line == p,
        EditView::Delete { .. } => false,
        EditView::Move { new_line, .. } => new_line == p,
        EditView::Unchanged { new_line, .. } => new_line == p,
    }
}

/// How many of `edits` report old line `k`.
pub open spec fn old_tally(edits: Seq<EditView>, k: int) -> nat
    decreases edits.len(),
{
    if edits.len() == 0 {
        0
    } else {
        old_tally(edits.drop_last(), k) + if names_old(edits.last(), k) {
            1nat
        } else {
            0nat
        }
    }
}

/// How many of `edits` report new line `p`.
pub open spec fn new_tally(edits: Seq<EditView>, p: int) -> nat
    decreases edits.len(),
{
    if edits.len() == 0 {
        0
    } else {
        new_tally(edits.drop_last(), p) + if names_new(edits.last(), p) {
            1nat
        } else {
            0nat
        }
    }
}

proof fn lemma_tally_concat(a: Seq<EditView>, b: Seq<EditView>, k: int)
    ensures
        old_tally(a + b, k) == old_tally(a, k) + old_tally(b, k),
        new_tally(a + b, k) == new_tally(a, k) + new_tally(b, k),
    decreases b.len(),
{
    if b.len() == 0 {
        assert(a + b =~= a);
    } else {
        lemma_tally_concat(a, b.drop_last(), k);
        assert((a + b).drop_last() =~= a + b.drop_last());
        assert((a + b).last() == b.last());
    }
}

proof fn lemma_tally_push(a: Seq<EditView>, e: EditView, k: int)
    ensures
        old_tally(a.push(e), k) == old_tally(a, k) + if names_old(e, k) {
            1nat
        } else {
            0nat
        },
        new_tally(a.push(e), k) == new_tally(a, k) + if names_new(e, k) {
            1nat
        } else {
            0nat
        },
{
    assert(a.push(e).drop_last() =~= a);
}

/// The old slots `a..b` passed over are each reported once; a new line is
/// reported among them where it is linked to one of them.
proof fn lemma_gap_tally(old_text: Seq<Seq<char>>, l: Links, m: int, n: int, a: int, b: int)
    requires
        linked(l, m, n),
        0 <= a <= b <= m + 2,
    ensures
        forall|k: int| #[trigger] old_tally(gap_edits(old_text, l.oa, a, b), k) == if a <= k < b {
            1nat
        } else {
            0nat
        },
        forall|p: int|
            0 <= p < n + 2 ==> #[trigger] new_tally(gap_edits(old_text, l.oa, a, b), p) == if l.na[p] is Some
                && a <= l.na[p]->0 < b {
                1nat
            } else {
                0nat
            },
    decreases b - a,
{
    if b > a {
        lemma_gap_tally(old_text, l, m, n, a, b - 1);
        let g = gap_edits(old_text, l.oa, a, b - 1);
        let e = gap_edit(old_text, l.oa, b - 1);
        assert forall|k: int| #[trigger] old_tally(gap_edits(old_text, l.oa, a, b), k) == if a <= k < b {
            1nat
        } else {
            0nat
        } by {
            lemma_tally_push(g, e, k);
        }
        assert forall|p: int|
            0 <= p < n + 2 implies #[trigger] new_tally(gap_edits(old_text, l.oa, a, b), p) == if l.na[p] is Some
                && a <= l.na[p]->0 < b {
                1nat
            } else {
                0nat
            } by {
            lemma_tally_push(g, e, p);
            if l.oa[b - 1] is Some {
                assert(l.na[l.oa[b - 1]->0] == Some(b - 1));
            }
            if l.na[p] is Some {
                assert(l.oa[l.na[p]->0] == Some(p));
            }
        }
    } else {
        assert(gap_edits(old_text, l.oa, a, b) =~= seq![]);
    }
}

/// After emission over new lines `1..=t`: the old lines before the expected
/// slot are reported once and the rest not yet; the new lines up to `t` are
/// reported once, and a later one once exactly where it is linked behind the
/// expected slot.
proof fn lemma_emit_tally(old_text: Seq<Seq<char>>, new_text: Seq<Seq<char>>, l: Links, t: nat)
    requires
        linked(l, old_text.len() as int, new_text.len() as int),
        t <= new_text.len(),
    ensures
        ({
            let e = emit_upto(old_text, new_text, l, t);
            let m = old_text.len() as int;
            let n = new_text.len() as int;
            &&& 1 <= e.next <= m + 1
            &&& forall|k: int|
                1 <= k <= m ==> #[trigger] old_tally(e.edits, k) == if k < e.next {
                    1nat
                } else {
                    0nat
                }
            &&& forall|p: int|
                1 <= p <= n ==> #[trigger] new_tally(e.edits, p) == if p <= t || (l.na[p] is Some
                    && l.na[p]->0 < e.next) {
                    1nat
                } else {
                    0nat
                }
            &&& forall|p: int|
                1 <= p <= t && #[trigger] l.na[p] is Some ==> l.na[p]->0 < e.next
        }),
    decreases t,
{
    let m = old_text.len() as int;
    let n = new_text.len() as int;
    if t > 0 {
        lemma_emit_tally(old_text, new_text, l, (t - 1) as nat);
        let i = t as int;
        let e0 = emit_upto(old_text, new_text, l, (t - 1) as nat);
        let e = emit_upto(old_text, new_text, l, t);
        match l.na[i] {
            None => {
                let ins = EditView::Insert { new_line: i, content: new_text[i - 1] };
                assert(e.edits == e0.edits.push(ins));
                assert forall|k: int| 1 <= k <= m implies #[trigger] old_tally(e.edits, k) == if k
                    < e.next {
                    1nat
                } else {
                    0nat
                } by {
                    lemma_tally_push(e0.edits, ins, k);
                }
                assert forall|p: int| 1 <= p <= n implies #[trigger] new_tally(e.edits, p) == if p
                    <= t || (l.na[p] is Some && l.na[p]->0 < e.next) {
                    1nat
                } else {
                    0nat
                } by {
                    lemma_tally_push(e0.edits, ins, p);
                }
            },
            Some(j) => {
                lemma_linked_lines(l, m, n, i);
                if j >= e0.next {
                    let g = gap_edits(old_text, l.oa, e0.next, j);
                    let u = EditView::Unchanged { old_line: j, new_line: i, content: new_text[i - 1] };
                    assert(e.edits == (e0.edits + g).push(u));
                    lemma_gap_tally(old_text, l, m, n, e0.next, j);
                    assert forall|k: int| 1 <= k <= m implies #[trigger] old_tally(e.edits, k) == if k
                        < e.next {
                        1nat
                    } else {
                        0nat
                    } by {
                        lemma_tally_push(e0.edits + g, u, k);
                        lemma_tally_concat(e0.edits, g, k);
                    }
                    assert forall|p: int| 1 <= p <= n implies #[trigger] new_tally(e.edits, p) == if p
                        <= t || (l.na[p] is Some && l.na[p]->0 < e.next) {
                        1nat
                    } else {
                        0nat
                    } by {
                        lemma_tally_push(e0.edits + g, u, p);
                        lemma_tally_concat(e0.edits, g, p);
                        if l.na[p] is Some && l.na[p]->0 == j {
                            assert(l.oa[j] == Some(p));
                            assert(l.oa[j] == Some(i));
                        }
                    }
                } else {
                    assert(e == e0);
                }
            },
        }
    }
}

/// Every line is reported exactly once: each old line number `1..=len` in
/// exactly one edit, and each new line number `1..=len` in exactly one edit.
pub proof fn lemma_every_line_reported_once(old_text: Seq<Seq<char>>, new_text: Seq<Seq<char>>)
    ensures
        forall|k: int|
            1 <= k <= old_text.len() ==> #[trigger] old_tally(diff(old_text, new_text), k) == 1,
        forall|p: int|
            1 <= p <= new_text.len() ==> #[trigger] new_tally(diff(old_text, new_text), p) == 1,
{
    let m = old_text.len() as int;
    let n = new_text.len() as int;
    let l = resolved(old_text, new_text);
    lemma_backward_linked(old_text, new_text, new_text.len());
    lemma_emit_tally(old_text, new_text, l, new_text.len());
    let e = emit_upto(old_text, new_text, l, new_text.len());
    let g = gap_edits(old_text, l.oa, e.next, m + 1);
    lemma_gap_tally(old_text, l, m, n, e.next, m + 1);
    assert(diff(old_text, new_text) == e.edits + g);
    assert forall|k: int| 1 <= k <= m implies #[trigger] old_tally(diff(old_text, new_text), k) == 1 by {
        lemma_tally_concat(e.edits, g, k);
    }
    assert forall|p: int| 1 <= p <= n implies #[trigger] new_tally(diff(old_text, new_text), p) == 1 by {
        lemma_tally_concat(e.edits, g, p);
    }
}

proof fn lemma_empty_count(s: Seq<Seq<char>>, x: Seq<char>)
    requires
        s.len() == 0,
    ensures
        count(s, x) == 0,
{
}

/// Emission over slots in which no new line is linked reports each as inserted.
proof fn lemma_emit_all_inserted(old_text: Seq<Seq<char>>, new_text: Seq<Seq<char>>, l: Links, t: nat)
    requires
        t <= new_text.len(),
        forall|p: int| 1 <= p <= new_text.len() ==> #[trigger] l.na[p] is None,
    ensures
        emit_upto(old_text, new_text, l, t) == (Emission {
            next: 1,
            edits: Seq::new(t, |q: int| EditView::Insert { new_line: q + 1, content: new_text[q] }),
        }),
    decreases t,
{
    if t > 0 {
        lemma_emit_all_inserted(old_text, new_text, l, (t - 1) as nat);
        assert(l.na[t as int] is None);
        assert(emit_upto(old_text, new_text, l, t).edits =~= Seq::new(
            t,
            |q: int| EditView::Insert { new_line: q + 1, content: new_text[q] },
        ));
    } else {
        assert(emit_upto(old_text, new_text, l, t).edits =~= Seq::new(
            t,
            |q: int| EditView::Insert { new_line: q + 1, content: new_text[q] },
        ));
    }
}

/// With an empty old text the slots stay as seeded.
proof fn lemma_empty_old_unmoved(new_text: Seq<Seq<char>>, t: nat)
    requires
        t <= new_text.len(),
    ensures
        backward(seq![], new_text, t) == seeded(seq![], new_text),
        forward(seq![], new_text, (new_text.len() + 1) as nat) == seeded(seq![], new_text),
    decreases t,
{
    let o: Seq<Seq<char>> = seq![];
    let s = seeded(o, new_text);
    assert forall|p: int| 1 <= p <= new_text.len() implies #[trigger] s.na[p] is None by {
        lemma_empty_count(o, new_text[p - 1]);
    }
    lemma_empty_old_forward(new_text, (new_text.len() + 1) as nat);
    if t > 0 {
        lemma_empty_old_unmoved(new_text, (t - 1) as nat);
        assert(s.na[new_text.len() + 1 - t] is None);
    }
}

proof fn lemma_empty_old_forward(new_text: Seq<Seq<char>>, t: nat)
    requires
        t <= new_text.len() + 1,
    ensures
        forward(seq![], new_text, t) == seeded(seq![], new_text),
    decreases t,
{
    let o: Seq<Seq<char>> = seq![];
    let s = seeded(o, new_text);
    assert forall|p: int| 1 <= p <= new_text.len() implies #[trigger] s.na[p] is None by {
        lemma_empty_count(o, new_text[p - 1]);
    }
    if t > 0 {
        lemma_empty_old_forward(new_text, (t - 1) as nat);
        let i = t - 1;
        if i > 0 {
            assert(s.na[i] is None);
        }
    }
}

/// Against an empty old text every new line is reported as inserted, in order,
/// and nothing else is reported.
pub proof fn lemma_empty_old_all_inserted(new_text: Seq<Seq<char>>)
    ensures
        diff(seq![], new_text) == Seq::new(
            new_text.len(),
            |q: int| EditView::Insert { new_line: q + 1, content: new_text[q] },
        ),
{
    let o: Seq<Seq<char>> = seq![];
    let s = seeded(o, new_text);
    lemma_empty_old_unmoved(new_text, new_text.len());
    assert forall|p: int| 1 <= p <= new_text.len() implies #[trigger] s.na[p] is None by {
        lemma_empty_count(o, new_text[p - 1]);
    }
    lemma_emit_all_inserted(o, new_text, s, new_text.len());
    let ins = Seq::new(
        new_text.len(),
        |q: int| EditView::Insert { new_line: q + 1, content: new_text[q] },
    );
    assert(gap_edits(o, s.oa, 1, 1) =~= seq![]);
    assert(diff(o, new_text) =~= ins);
}

/// Old slots `1..b` that are all unresolved are reported as deleted, in order.
proof fn lemma_gap_all_deleted(old_text: Seq<Seq<char>>, oa: Seq<Option<int>>, b: int)
    requires
        1 <= b <= old_text.len() + 1,
        forall|k: int| 1 <= k <= old_text.len() ==> #[trigger] oa[k] is None,
    ensures
        gap_edits(old_text, oa, 1, b) == Seq::new(
            (b - 1) as nat,
            |q: int| EditView::Delete { old_line: q + 1, content: old_text[q] },
        ),
    decreases b,
{
    if b > 1 {
        lemma_gap_all_deleted(old_text, oa, b - 1);
        assert(oa[b - 1] is None);
    }
    assert(gap_edits(old_text, oa, 1, b) =~= Seq::new(
        (b - 1) as nat,
        |q: int| EditView::Delete { old_line: q + 1, content: old_text[q] },
    ));
}

/// Against an empty new text every old line is reported as deleted, in order,
/// and nothing else is reported.
pub proof fn lemma_empty_new_all_deleted(old_text: Seq<Seq<char>>)
    ensures
        diff(old_text, seq![]) == Seq::new(
            old_text.len(),
            |q: int| EditView::Delete { old_line: q + 1, content: old_text[q] },
        ),
{
    let n: Seq<Seq<char>> = seq![];
    let s = seeded(old_text, n);
    assert forall|k: int| 1 <= k <= old_text.len() implies #[trigger] s.oa[k] is None by {
        lemma_empty_count(n, old_text[k - 1]);
    }
    assert(forward(old_text, n, 0) == s);
    assert(s.na[0] == Some(0int));
    assert(forward(old_text, n, 1) == s);
    assert(resolved(old_text, n) == s);
    let e = emit_upto(old_text, n, s, 0);
    assert(e.edits =~= seq![]);
    lemma_gap_all_deleted(old_text, s.oa, old_text.len() + 1int);
    assert(diff(old_text, n) =~= gap_edits(old_text, s.oa, 1, old_text.len() + 1int));
}

/// Seeding a text against itself links each line occurring once to itself,
/// and gives both texts the same slots.
proof fn lemma_seeded_same(text: Seq<Seq<char>>)
    ensures
        seeded(text, text).oa == seeded(text, text).na,
        forall|q: int|
            0 <= q < text.len() + 2 && (#[trigger] seeded(text, text).na[q]) is Some
                ==> seeded(text, text).na[q] == Some(q),
{
    let s = seeded(text, text);
    assert(s.oa =~= s.na);
    assert forall|q: int|
        0 <= q < text.len() + 2 && (#[trigger] seeded(text, text).na[q]) is Some implies seeded(
        text,
        text,
    ).na[q] == Some(q) by {
        if 1 <= q <= text.len() {
            lemma_position_at(text, text[q - 1], q - 1);
        }
    }
}

/// Forward propagation of a text against itself links each line to itself,
/// one after another from BEGIN.
proof fn lemma_same_forward(text: Seq<Seq<char>>, t: nat)
    requires
        t <= text.len() + 1,
    ensures
        forward(text, text, t).oa == forward(text, text, t).na,
        forward(text, text, t).na.len() == text.len() + 2,
        forall|q: int|
            0 <= q < text.len() + 2 ==> #[trigger] forward(text, text, t).na[q] == if q <= t {
                Some(q)
            } else {
                seeded(text, text).na[q]
            },
    decreases t,
{
    lemma_seeded_same(text);
    if t > 0 {
        lemma_same_forward(text, (t - 1) as nat);
        let f = forward(text, text, (t - 1) as nat);
        let i = t - 1;
        assert(f.na[i] == Some(i));
        let r = forward(text, text, t);
        if 1 <= i + 1 <= text.len() && f.na[i + 1] is None {
            assert(r.na =~= f.na.update(i + 1, Some(i + 1)));
        } else {
            assert(r == f);
        }
    }
}

/// Backward propagation of a text against itself changes nothing.
proof fn lemma_same_backward(text: Seq<Seq<char>>, t: nat)
    requires
        t <= text.len(),
    ensures
        backward(text, text, t) == forward(text, text, (text.len() + 1) as nat),
    decreases t,
{
    lemma_same_forward(text, (text.len() + 1) as nat);
    if t > 0 {
        lemma_same_backward(text, (t - 1) as nat);
        let i = text.len() + 1 - t;
        let f = forward(text, text, (text.len() + 1) as nat);
        assert(f.na[i] == Some(i));
        assert(f.na[i - 1] == Some(i - 1));
    }
}

/// Emission over slots that link each line to itself reports every line as
/// unchanged.
proof fn lemma_same_emit(text: Seq<Seq<char>>, l: Links, t: nat)
    requires
        t <= text.len(),
        forall|q: int| 0 <= q < text.len() + 2 ==> #[trigger] l.na[q] == Some(q),
    ensures
        emit_upto(text, text, l, t) == (Emission {
            next: t + 1int,
            edits: Seq::new(
                t,
                |q: int| EditView::Unchanged { old_line: q + 1, new_line: q + 1, content: text[q] },
            ),
        }),
    decreases t,
{
    let want = Seq::new(
        t,
        |q: int| EditView::Unchanged { old_line: q + 1, new_line: q + 1, content: text[q] },
    );
    if t > 0 {
        lemma_same_emit(text, l, (t - 1) as nat);
        assert(l.na[t as int] == Some(t as int));
        let e0 = emit_upto(text, text, l, (t - 1) as nat);
        assert(gap_edits(text, l.oa, t as int, t as int) =~= seq![]);
        assert(e0.edits + gap_edits(text, l.oa, t as int, t as int) =~= e0.edits);
    }
    assert(emit_upto(text, text, l, t).edits =~= want);
}

/// A text against itself: every line is reported as unchanged, in order, at
/// the same line number on both sides, and nothing else is reported.
pub proof fn lemma_identical_all_unchanged(text: Seq<Seq<char>>)
    ensures
        diff(text, text) == Seq::new(
            text.len(),
            |q: int| EditView::Unchanged { old_line: q + 1, new_line: q + 1, content: text[q] },
        ),
{
    let n = text.len();
    lemma_same_backward(text, n);
    lemma_same_forward(text, (n + 1) as nat);
    let l = resolved(text, text);
    lemma_same_emit(text, l, n);
    let e = emit_upto(text, text, l, n);
    assert(gap_edits(text, l.oa, e.next, n + 1int) =~= seq![]);
    assert(diff(text, text) =~= e.edits);
}

/// The slots keep every link `s` holds.
pub open spec fn keeps_links(r: Links, s: Links) -> bool {
    &&& r.na.len() == s.na.len()
    &&& r.oa.len() == s.oa.len()
    &&& forall|q: int| 0 <= q < s.na.len() && (#[trigger] s.na[q]) is Some ==> r.na[q] == s.na[q]
    &&& forall|k: int| 0 <= k < s.oa.len() && (#[trigger] s.oa[k]) is Some ==> r.oa[k] == s.oa[k]
}

/// Forward propagation only links unresolved slots: links made when seeding
/// are kept.
proof fn lemma_forward_keeps(old_text: Seq<Seq<char>>, new_text: Seq<Seq<char>>, t: nat)
    requires
        t <= new_text.len() + 1,
    ensures
        keeps_links(forward(old_text, new_text, t), seeded(old_text, new_text)),
    decreases t,
{
    if t > 0 {
        lemma_forward_keeps(old_text, new_text, (t - 1) as nat);
    }
}

/// Backward propagation only links unresolved slots: links made when seeding
/// are kept.
proof fn lemma_backward_keeps(old_text: Seq<Seq<char>>, new_text: Seq<Seq<char>>, t: nat)
    requires
        t <= new_text.len(),
    ensures
        keeps_links(backward(old_text, new_text, t), seeded(old_text, new_text)),
    decreases t,
{
    if t == 0 {
        lemma_forward_keeps(old_text, new_text, (new_text.len() + 1) as nat);
    } else {
        lemma_backward_keeps(old_text, new_text, (t - 1) as nat);
    }
}

/// A line that occurs exactly once in each text is matched to its counterpart,
/// wherever the two stand: the slots of both end linked to each other.
pub proof fn lemma_unique_line_matched(
    old_text: Seq<Seq<char>>,
    new_text: Seq<Seq<char>>,
    k: int,
    p: int,
)
    requires
        1 <= k <= old_text.len(),
        1 <= p <= new_text.len(),
        old_text[k - 1] == new_text[p - 1],
        unique_common(old_text, new_text, new_text[p - 1]),
    ensures
        resolved(old_text, new_text).na[p] == Some(k),
        resolved(old_text, new_text).oa[k] == Some(p),
{
    let x = new_text[p - 1];
    lemma_position_at(old_text, x, k - 1);
    lemma_position_at(new_text, x, p - 1);
    let s = seeded(old_text, new_text);
    assert(s.na[p] == Some(k));
    assert(s.oa[k] == Some(p));
    lemma_backward_keeps(old_text, new_text, new_text.len());
}

/// The reported difference depends on the two texts alone: two runs on the
/// same texts report the same edits.
pub proof fn lemma_deterministic(
    old_lines: Seq<String>,
    new_lines: Seq<String>,
    first: Seq<Edit>,
    second: Seq<Edit>,
)
    requires
        views(first) == diff(lines_of(old_lines), lines_of(new_lines)),
        views(second) == diff(lines_of(old_lines), lines_of(new_lines)),
    ensures
        views(first) == views(second),
{
}

/// The edit agrees with the slots `l`: an inserted or deleted line is
/// unresolved, a moved or unchanged one is linked to the line it is reported
/// with.
pub open spec fn follows_links(l: Links, e: EditView) -> bool {
    match e {
        EditView::Insert { new_line, .. } => l.na[new_line] is None,
        EditView::Delete { old_line, .. } => l.oa[old_line] is None,
        EditView::Move { old_line, new_line, .. } => l.oa[old_line] == Some(new_line),
        EditView::Unchanged { old_line, new_line, .. } => l.na[new_line] == Some(old_line),
    }
}

proof fn lemma_gap_follows(old_text: Seq<Seq<char>>, l: Links, a: int, b: int)
    ensures
        forall|t: int|
            0 <= t < gap_edits(old_text, l.oa, a, b).len() ==> follows_links(
                l,
                #[trigger] gap_edits(old_text, l.oa, a, b)[t],
            ),
    decreases b - a,
{
    if b > a {
        lemma_gap_follows(old_text, l, a, b - 1);
        let g = gap_edits(old_text, l.oa, a, b - 1);
        assert forall|t: int|
            0 <= t < gap_edits(old_text, l.oa, a, b).len() implies follows_links(
            l,
            #[trigger] gap_edits(old_text, l.oa, a, b)[t],
        ) by {
            if t < g.len() {
                assert(gap_edits(old_text, l.oa, a, b)[t] == g[t]);
            }
        }
    }
}

proof fn lemma_emit_follows(old_text: Seq<Seq<char>>, new_text: Seq<Seq<char>>, l: Links, t: nat)
    ensures
        forall|u: int|
            0 <= u < emit_upto(old_text, new_text, l, t).edits.len() ==> follows_links(
                l,
                #[trigger] emit_upto(old_text, new_text, l, t).edits[u],
            ),
    decreases t,
{
    if t > 0 {
        lemma_emit_follows(old_text, new_text, l, (t - 1) as nat);
        let e0 = emit_upto(old_text, new_text, l, (t - 1) as nat);
        let e = emit_upto(old_text, new_text, l, t);
        let i = t as int;
        if l.na[i] is Some && l.na[i]->0 >= e0.next {
            let g = gap_edits(old_text, l.oa, e0.next, l.na[i]->0);
            lemma_gap_follows(old_text, l, e0.next, l.na[i]->0);
            assert forall|u: int| 0 <= u < e.edits.len() implies follows_links(l, #[trigger] e.edits[u]) by {
                if u < e0.edits.len() {
                    assert(e.edits[u] == e0.edits[u]);
                } else if u < e0.edits.len() + g.len() {
                    assert(e.edits[u] == g[u - e0.edits.len()]);
                }
            }
        } else if l.na[i] is None {
            assert forall|u: int| 0 <= u < e.edits.len() implies follows_links(l, #[trigger] e.edits[u]) by {
                if u < e0.edits.len() {
                    assert(e.edits[u] == e0.edits[u]);
                }
            }
        }
    }
}

/// Every reported edit agrees with the resolved slots: inserted and deleted
/// lines are the unresolved ones, moved and unchanged lines are reported with
/// the line they are linked to.
pub proof fn lemma_edits_follow_links(old_text: Seq<Seq<char>>, new_text: Seq<Seq<char>>)
    ensures
        forall|t: int|
            0 <= t < diff(old_text, new_text).len() ==> follows_links(
                resolved(old_text, new_text),
                #[trigger] diff(old_text, new_text)[t],
            ),
{
    let l = resolved(old_text, new_text);
    let e = emit_upto(old_text, new_text, l, new_text.len());
    let g = gap_edits(old_text, l.oa, e.next, old_text.len() + 1int);
    lemma_emit_follows(old_text, new_text, l, new_text.len());
    lemma_gap_follows(old_text, l, e.next, old_text.len() + 1int);
    assert forall|t: int| 0 <= t < diff(old_text, new_text).len() implies follows_links(
        l,
        #[trigger] diff(old_text, new_text)[t],
    ) by {
        if t < e.edits.len() {
            assert(diff(old_text, new_text)[t] == e.edits[t]);
        } else {
            assert(diff(old_text, new_text)[t] == g[t - e.edits.len()]);
        }
    }
}

/// A line that occurs exactly once in each text is never reported as inserted
/// or deleted: it is reported with its counterpart, unchanged or moved.
pub proof fn lemma_unique_line_not_replaced(
    old_text: Seq<Seq<char>>,
    new_text: Seq<Seq<char>>,
    k: int,
    p: int,
)
    requires
        1 <= k <= old_text.len(),
        1 <= p <= new_text.len(),
        old_text[k - 1] == new_text[p - 1],
        unique_common(old_text, new_text, new_text[p - 1]),
    ensures
        forall|t: int|
            0 <= t < diff(old_text, new_text).len() ==> !(#[trigger] diff(old_text, new_text)[t] matches EditView::Insert { new_line, .. } && new_line == p),
        forall|t: int|
            0 <= t < diff(old_text, new_text).len() ==> !(#[trigger] diff(old_text, new_text)[t] matches EditView::Delete { old_line, .. } && old_line == k),
{
    lemma_unique_line_matched(old_text, new_text, k, p);
    lemma_edits_follow_links(old_text, new_text);
}

} // verus!
