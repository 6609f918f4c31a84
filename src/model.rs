//! The mathematical model of the matcher: each pass as a spec function over
//! the two texts, seen as sequences of lines.
use vstd::prelude::*;

verus! {

/// The lines of a text as character sequences.
pub open spec fn lines_of(v: Seq<String>) -> Seq<Seq<char>> {
    v.map_values(|s: String| s@)
}

/// Number of places at which `x` stands in `s`.
pub open spec fn count(s: Seq<Seq<char>>, x: Seq<char>) -> nat
    decreases s.len(),
{
    if s.len() == 0 {
        0
    } else {
        count(s.drop_last(), x) + if s.last() == x {
            1nat
        } else {
            0nat
        }
    }
}

/// The index at which `x` stands in `s`; meaningful where it stands there once.
pub open spec fn position(s: Seq<Seq<char>>, x: Seq<char>) -> int {
    choose|k: int| 0 <= k < s.len() && s[k] == x
}

/// `x` occurs exactly once in each text.
pub open spec fn unique_common(old_text: Seq<Seq<char>>, new_text: Seq<Seq<char>>, x: Seq<char>) -> bool {
    count(old_text, x) == 1 && count(new_text, x) == 1
}

/// The slots of both texts. Slot 0 is the BEGIN sentinel, slots `1..=len` are
/// the lines (numbered from 1), slot `len + 1` is the END sentinel. `None`
/// marks an unresolved slot, `Some(j)` one linked to slot `j` of the other text.
pub struct Links {
    pub oa: Seq<Option<int>>,
    pub na: Seq<Option<int>>,
}

/// The slots after the lines that occur once in each text have been linked,
/// with both sentinels in place.
pub open spec fn seeded(old_text: Seq<Seq<char>>, new_text: Seq<Seq<char>>) -> Links {
    Links {
        oa: Seq::new(
            (old_text.len() + 2) as nat,
            |k: int|
                if k == 0 {
                    Some(0)
                } else if k == old_text.len() + 1 {
                    Some(new_text.len() + 1int)
                } else if unique_common(old_text, new_text, old_text[k - 1]) {
                    Some(position(new_text, old_text[k - 1]) + 1)
                } else {
                    None
                },
        ),
        na: Seq::new(
            (new_text.len() + 2) as nat,
            |p: int|
                if p == 0 {
                    Some(0)
                } else if p == new_text.len() + 1 {
                    Some(old_text.len() + 1int)
                } else if unique_common(old_text, new_text, new_text[p - 1]) {
                    Some(position(old_text, new_text[p - 1]) + 1)
                } else {
                    None
                },
        ),
    }
}

/// One step of forward propagation at new slot `i`: where it is linked to old
/// slot `j` and both following slots are unresolved lines of equal text, those
/// two are linked.
pub open spec fn forward_step(
    old_text: Seq<Seq<char>>,
    new_text: Seq<Seq<char>>,
    s: Links,
    i: int,
) -> Links {
    match s.na[i] {
        Some(j) => if 1 <= i + 1 <= new_text.len() && 1 <= j + 1 <= old_text.len() && s.na[i + 1] is None
            && s.oa[j + 1] is None && new_text[i] == old_text[j] {
            Links { oa: s.oa.update(j + 1, Some(i + 1)), na: s.na.update(i + 1, Some(j + 1)) }
        } else {
            s
        },
        None => s,
    }
}

/// The slots after forward propagation has visited new slots `0..t`.
pub open spec fn forward(old_text: Seq<Seq<char>>, new_text: Seq<Seq<char>>, t: nat) -> Links
    decreases t,
{
    if t == 0 {
        seeded(old_text, new_text)
    } else {
        forward_step(old_text, new_text, forward(old_text, new_text, (t - 1) as nat), t - 1)
    }
}

/// One step of backward propagation at new slot `i`: where it is linked to old
/// slot `j` and both preceding slots are unresolved lines of equal text, those
/// two are linked.
pub open spec fn backward_step(
    old_text: Seq<Seq<char>>,
    new_text: Seq<Seq<char>>,
    s: Links,
    i: int,
) -> Links {
    match s.na[i] {
        Some(j) => if 1 <= i - 1 <= new_text.len() && 1 <= j - 1 <= old_text.len() && s.na[i - 1] is None
            && s.oa[j - 1] is None && new_text[i - 2] == old_text[j - 2] {
            Links { oa: s.oa.update(j - 1, Some(i - 1)), na: s.na.update(i - 1, Some(j - 1)) }
        } else {
            s
        },
        None => s,
    }
}

/// The slots after backward propagation has visited new slots `len, len - 1, ...`,
/// `t` of them, starting from the end of forward propagation.
pub open spec fn backward(old_text: Seq<Seq<char>>, new_text: Seq<Seq<char>>, t: nat) -> Links
    decreases t,
{
    if t == 0 {
        forward(old_text, new_text, (new_text.len() + 1) as nat)
    } else {
        backward_step(old_text, new_text, backward(old_text, new_text, (t - 1) as nat), new_text.len() + 1 - t)
    }
}

/// The slots once all resolution is done.
pub open spec fn resolved(old_text: Seq<Seq<char>>, new_text: Seq<Seq<char>>) -> Links {
    backward(old_text, new_text, new_text.len())
}

/// One reported line, with line numbers counted from 1.
pub enum EditView {
    Insert { new_line: int, content: Seq<char> },
    Delete { old_line: int, content: Seq<char> },
    Move { old_line: int, new_line: int, content: Seq<char> },
    Unchanged { old_line: int, new_line: int, content: Seq<char> },
}

/// What is reported for old slot `k` when it is passed over: a delete where it
/// is unresolved, a move where it belongs to a later new line.
pub open spec fn gap_edit(old_text: Seq<Seq<char>>, oa: Seq<Option<int>>, k: int) -> EditView {
    match oa[k] {
        Some(p) => EditView::Move { old_line: k, new_line: p, content: old_text[k - 1] },
        None => EditView::Delete { old_line: k, content: old_text[k - 1] },
    }
}

/// What is reported for old slots `a..b`, in order.
pub open spec fn gap_edits(old_text: Seq<Seq<char>>, oa: Seq<Option<int>>, a: int, b: int) -> Seq<
    EditView,
>
    decreases b - a,
{
    if b <= a {
        seq![]
    } else {
        gap_edits(old_text, oa, a, b - 1).push(gap_edit(old_text, oa, b - 1))
    }
}

/// The state of emission: the old slot expected next, and what is reported so far.
pub struct Emission {
    pub next: int,
    pub edits: Seq<EditView>,
}

/// Emission at new line `i`. An unresolved line is an insert. A line linked at
/// or beyond the expected old slot reports the old slots passed over, then
/// itself as unchanged. A line linked behind it was already reported as a move.
pub open spec fn emit_step(
    old_text: Seq<Seq<char>>,
    new_text: Seq<Seq<char>>,
    l: Links,
    e: Emission,
    i: int,
) -> Emission {
    match l.na[i] {
        None => Emission {
            next: e.next,
            edits: e.edits.push(EditView::Insert { new_line: i, content: new_text[i - 1] }),
        },
        Some(j) => if j >= e.next {
            Emission {
                next: j + 1,
                edits: (e.edits + gap_edits(old_text, l.oa, e.next, j)).push(
                    EditView::Unchanged { old_line: j, new_line: i, content: new_text[i - 1] },
                ),
            }
        } else {
            e
        },
    }
}

/// Emission after new lines `1..=t`; it starts just past BEGIN.
pub open spec fn emit_upto(old_text: Seq<Seq<char>>, new_text: Seq<Seq<char>>, l: Links, t: nat) -> Emission
    decreases t,
{
    if t == 0 {
        Emission { next: 1, edits: seq![] }
    } else {
        emit_step(old_text, new_text, l, emit_upto(old_text, new_text, l, (t - 1) as nat), t as int)
    }
}

/// What emission over the slots `l` reports: the new lines in order, then the
/// old lines left after the last linked one.
pub open spec fn emission(old_text: Seq<Seq<char>>, new_text: Seq<Seq<char>>, l: Links) -> Seq<EditView> {
    let e = emit_upto(old_text, new_text, l, new_text.len());
    e.edits + gap_edits(old_text, l.oa, e.next, old_text.len() + 1int)
}

/// The difference of two texts: emission over the resolved slots.
pub open spec fn diff(old_text: Seq<Seq<char>>, new_text: Seq<Seq<char>>) -> Seq<EditView> {
    emission(old_text, new_text, resolved(old_text, new_text))
}

/// Every link goes both ways, stays within the slots, and the sentinels are
/// linked to each other.
pub open spec fn linked(l: Links, m: int, n: int) -> bool {
    &&& l.oa.len() == m + 2
    &&& l.na.len() == n + 2
    &&& l.na[0] == Some(0int)
    &&& l.na[n + 1] == Some(m + 1)
    &&& forall|p: int|
        0 <= p < n + 2 && #[trigger] l.na[p] is Some ==> 0 <= l.na[p]->0 < m + 2 && l.oa[l.na[p]->0]
            == Some(p)
    &&& forall|k: int|
        0 <= k < m + 2 && #[trigger] l.oa[k] is Some ==> 0 <= l.oa[k]->0 < n + 2 && l.na[l.oa[k]->0]
            == Some(k)
}

pub proof fn lemma_count_push(s: Seq<Seq<char>>, y: Seq<char>, x: Seq<char>)
    ensures
        count(s.push(y), x) == count(s, x) + if y == x {
            1nat
        } else {
            0nat
        },
{
    assert(s.push(y).drop_last() =~= s);
}

/// No occurrence means no index holds `x`.
pub proof fn lemma_count_zero(s: Seq<Seq<char>>, x: Seq<char>)
    ensures
        count(s, x) == 0 <==> forall|k: int| 0 <= k < s.len() ==> s[k] != x,
    decreases s.len(),
{
    if s.len() > 0 {
        lemma_count_zero(s.drop_last(), x);
        if count(s, x) == 0 {
            assert forall|k: int| 0 <= k < s.len() implies s[k] != x by {
                if k < s.len() - 1 {
                    assert(s.drop_last()[k] == s[k]);
                }
            }
        }
        if forall|k: int| 0 <= k < s.len() ==> s[k] != x {
            assert forall|k: int| 0 <= k < s.drop_last().len() implies s.drop_last()[k] != x by {
                assert(s[k] != x);
            }
            assert(s[s.len() - 1] != x);
        }
    }
}

/// A single occurrence stands at `position`, and nowhere else.
pub proof fn lemma_count_one(s: Seq<Seq<char>>, x: Seq<char>)
    requires
        count(s, x) == 1,
    ensures
        0 <= position(s, x) < s.len(),
        s[position(s, x)] == x,
        forall|k: int| 0 <= k < s.len() && s[k] == x ==> k == position(s, x),
    decreases s.len(),
{
    let t = s.drop_last();
    if s.last() == x {
        lemma_count_zero(t, x);
        assert(s[s.len() - 1] == x);
        assert forall|k: int| 0 <= k < s.len() && s[k] == x implies k == s.len() - 1 by {
            if k < s.len() - 1 {
                assert(t[k] == s[k]);
            }
        }
    } else {
        lemma_count_one(t, x);
        let q = position(t, x);
        assert(s[q] == x);
        assert forall|k: int| 0 <= k < s.len() && s[k] == x implies k == q by {
            if k < s.len() - 1 {
                assert(t[k] == s[k]);
            }
        }
    }
}

/// Where `x` stands once in `s`, any index holding it is its position.
pub proof fn lemma_position_at(s: Seq<Seq<char>>, x: Seq<char>, k: int)
    requires
        count(s, x) == 1,
        0 <= k < s.len(),
        s[k] == x,
    ensures
        position(s, x) == k,
{
    lemma_count_one(s, x);
}

/// Where `y` stands once after `x` is appended, its position is the new last
/// index if it is `x`, and its earlier position otherwise.
pub proof fn lemma_position_push(s: Seq<Seq<char>>, x: Seq<char>, y: Seq<char>)
    requires
        count(s.push(x), y) == 1,
    ensures
        position(s.push(x), y) == if y == x {
            s.len() as int
        } else {
            position(s, y)
        },
{
    lemma_count_push(s, x, y);
    if y == x {
        lemma_position_at(s.push(x), y, s.len() as int);
    } else {
        lemma_count_one(s, y);
        let k = position(s, y);
        assert(s.push(x)[k] == y);
        lemma_position_at(s.push(x), y, k);
    }
}

pub proof fn lemma_seeded_linked(old_text: Seq<Seq<char>>, new_text: Seq<Seq<char>>)
    ensures
        linked(seeded(old_text, new_text), old_text.len() as int, new_text.len() as int),
{
    let l = seeded(old_text, new_text);
    let m = old_text.len() as int;
    let n = new_text.len() as int;
    assert forall|p: int| 0 <= p < n + 2 && #[trigger] l.na[p] is Some implies 0 <= l.na[p]->0 < m
        + 2 && l.oa[l.na[p]->0] == Some(p) by {
        if 1 <= p <= n {
            let x = new_text[p - 1];
            lemma_count_one(old_text, x);
            lemma_position_at(new_text, x, p - 1);
        }
    }
    assert forall|k: int| 0 <= k < m + 2 && #[trigger] l.oa[k] is Some implies 0 <= l.oa[k]->0 < n
        + 2 && l.na[l.oa[k]->0] == Some(k) by {
        if 1 <= k <= m {
            let x = old_text[k - 1];
            lemma_count_one(new_text, x);
            lemma_position_at(old_text, x, k - 1);
        }
    }
}

pub proof fn lemma_forward_step_linked(old_text: Seq<Seq<char>>, new_text: Seq<Seq<char>>, s: Links, i: int)
    requires
        linked(s, old_text.len() as int, new_text.len() as int),
        0 <= i <= new_text.len(),
    ensures
        linked(forward_step(old_text, new_text, s, i), old_text.len() as int, new_text.len() as int),
{
    let r = forward_step(old_text, new_text, s, i);
    let m = old_text.len() as int;
    let n = new_text.len() as int;
    if r != s {
        let j = s.na[i]->0;
        assert(s.na[i] is Some);
        assert forall|p: int| 0 <= p < n + 2 && #[trigger] r.na[p] is Some implies 0 <= r.na[p]->0
            < m + 2 && r.oa[r.na[p]->0] == Some(p) by {
            if p != i + 1 {
                assert(s.na[p] is Some);
                if s.na[p]->0 == j + 1 {
                    assert(s.oa[j + 1] is Some);
                }
            }
        }
        assert forall|k: int| 0 <= k < m + 2 && #[trigger] r.oa[k] is Some implies 0 <= r.oa[k]->0
            < n + 2 && r.na[r.oa[k]->0] == Some(k) by {
            if k != j + 1 {
                assert(s.oa[k] is Some);
                if s.oa[k]->0 == i + 1 {
                    assert(s.na[i + 1] is Some);
                }
            }
        }
    }
}

pub proof fn lemma_backward_step_linked(old_text: Seq<Seq<char>>, new_text: Seq<Seq<char>>, s: Links, i: int)
    requires
        linked(s, old_text.len() as int, new_text.len() as int),
        1 <= i <= new_text.len() + 1,
    ensures
        linked(backward_step(old_text, new_text, s, i), old_text.len() as int, new_text.len() as int),
{
    let r = backward_step(old_text, new_text, s, i);
    let m = old_text.len() as int;
    let n = new_text.len() as int;
    if r != s {
        let j = s.na[i]->0;
        assert(s.na[i] is Some);
        assert forall|p: int| 0 <= p < n + 2 && #[trigger] r.na[p] is Some implies 0 <= r.na[p]->0
            < m + 2 && r.oa[r.na[p]->0] == Some(p) by {
            if p != i - 1 {
                assert(s.na[p] is Some);
                if s.na[p]->0 == j - 1 {
                    assert(s.oa[j - 1] is Some);
                }
            }
        }
        assert forall|k: int| 0 <= k < m + 2 && #[trigger] r.oa[k] is Some implies 0 <= r.oa[k]->0
            < n + 2 && r.na[r.oa[k]->0] == Some(k) by {
            if k != j - 1 {
                assert(s.oa[k] is Some);
                if s.oa[k]->0 == i - 1 {
                    assert(s.na[i - 1] is Some);
                }
            }
        }
    }
}

pub proof fn lemma_forward_linked(old_text: Seq<Seq<char>>, new_text: Seq<Seq<char>>, t: nat)
    requires
        t <= new_text.len() + 1,
    ensures
        linked(forward(old_text, new_text, t), old_text.len() as int, new_text.len() as int),
    decreases t,
{
    if t == 0 {
        lemma_seeded_linked(old_text, new_text);
    } else {
        lemma_forward_linked(old_text, new_text, (t - 1) as nat);
        lemma_forward_step_linked(old_text, new_text, forward(old_text, new_text, (t - 1) as nat), t - 1);
    }
}

pub proof fn lemma_backward_linked(old_text: Seq<Seq<char>>, new_text: Seq<Seq<char>>, t: nat)
    requires
        t <= new_text.len(),
    ensures
        linked(backward(old_text, new_text, t), old_text.len() as int, new_text.len() as int),
    decreases t,
{
    if t == 0 {
        lemma_forward_linked(old_text, new_text, (new_text.len() + 1) as nat);
    } else {
        lemma_backward_linked(old_text, new_text, (t - 1) as nat);
        lemma_backward_step_linked(
            old_text,
            new_text,
            backward(old_text, new_text, (t - 1) as nat),
            new_text.len() + 1 - t,
        );
    }
}

/// In linked slots a real line is linked only to a real line.
pub proof fn lemma_linked_lines(l: Links, m: int, n: int, p: int)
    requires
        linked(l, m, n),
        1 <= p <= n,
        l.na[p] is Some,
    ensures
        1 <= l.na[p]->0 <= m,
{
    assert(l.na[0] is Some);
    assert(l.na[n + 1] is Some);
}

} // verus!
