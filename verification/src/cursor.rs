//! Cursors and the lexicographic order the walk follows.
//!
//! A cursor is a list of per-group choice indices. A partial cursor is
//! a path still being explored; a full cursor names one section per
//! group. The walk emits full cursors in strictly increasing
//! lexicographic order, so the order itself is pinned down here.

use vstd::prelude::*;

verus! {

/// Strict lexicographic order, element by element from the front.
/// Intended for cursors of equal length.
pub open spec fn lex_lt(a: Seq<usize>, b: Seq<usize>) -> bool
    decreases a.len(),
{
    if a.len() == 0 || b.len() == 0 {
        false
    } else if a[0] < b[0] {
        true
    } else if a[0] == b[0] {
        lex_lt(a.skip(1), b.skip(1))
    } else {
        false
    }
}

/// Lexicographic order, allowing equality.
pub open spec fn lex_le(a: Seq<usize>, b: Seq<usize>) -> bool {
    lex_lt(a, b) || a == b
}

/// Whether the full cursor `l` lies at or beyond the partial cursor
/// `s`: the walk at `s` can still reach `l`.
pub open spec fn at_or_beyond(l: Seq<usize>, s: Seq<usize>) -> bool {
    s.len() <= l.len() && lex_le(s, l.subrange(0, s.len() as int))
}

/// Two cursors with the same head and the same tail are equal.
proof fn lemma_head_tail_eq(x: Seq<usize>, y: Seq<usize>)
    requires
        x.len() == y.len(),
        x.len() > 0,
        x[0] == y[0],
        x.skip(1) == y.skip(1),
    ensures
        x == y,
{
    assert forall|i: int| 0 <= i < x.len() implies x[i] == y[i] by {
        if i > 0 {
            assert(x.skip(1)[i - 1] == x[i]);
            assert(y.skip(1)[i - 1] == y[i]);
        }
    }
    assert(x =~= y);
}

/// The lexicographic order is transitive.
pub proof fn lemma_lex_lt_trans(a: Seq<usize>, b: Seq<usize>, c: Seq<usize>)
    requires
        a.len() == b.len(),
        b.len() == c.len(),
        lex_lt(a, b),
        lex_lt(b, c),
    ensures
        lex_lt(a, c),
    decreases a.len(),
{
    if a.len() > 0 {
        if a[0] == b[0] && b[0] == c[0] {
            lemma_lex_lt_trans(a.skip(1), b.skip(1), c.skip(1));
        }
    }
}

/// Cursors of one length are totally ordered: below, above, or equal.
pub proof fn lemma_lex_total(a: Seq<usize>, b: Seq<usize>)
    requires
        a.len() == b.len(),
    ensures
        lex_lt(a, b) || lex_lt(b, a) || a == b,
    decreases a.len(),
{
    if a.len() == 0 {
        assert(a =~= b);
    } else if a[0] == b[0] {
        lemma_lex_total(a.skip(1), b.skip(1));
        if !lex_lt(a, b) && !lex_lt(b, a) {
            assert(a.skip(1) == b.skip(1));
            assert(a =~= b) by {
                assert forall|i: int| 0 <= i < a.len() implies a[i] == b[i] by {
                    if i > 0 {
                        assert(a.skip(1)[i - 1] == a[i]);
                        assert(b.skip(1)[i - 1] == b[i]);
                    }
                }
            }
        }
    }
}

/// Nothing is strictly below itself.
pub proof fn lemma_lex_irrefl(a: Seq<usize>)
    ensures
        !lex_lt(a, a),
    decreases a.len(),
{
    if a.len() > 0 {
        lemma_lex_irrefl(a.skip(1));
    }
}

/// How extending a partial cursor by one trial index sits in the
/// order: a full cursor is at or beyond `p` extended with `t` exactly
/// when its matching prefix is strictly above `p`, or equals `p` and
/// its next index is at least `t`.
pub proof fn lemma_lex_push_le(p: Seq<usize>, t: usize, a: Seq<usize>)
    requires
        a.len() == p.len() + 1,
    ensures
        lex_le(p.push(t), a) == (lex_lt(p, a.subrange(0, p.len() as int)) || (p == a.subrange(
            0,
            p.len() as int,
        ) && a[p.len() as int] >= t)),
    decreases p.len(),
{
    let q = p.push(t);
    let pre = a.subrange(0, p.len() as int);
    if p.len() == 0 {
        assert(pre =~= p);
        assert(q[0] == t);
        if a[0] == t {
            assert(q =~= a);
        }
        if q == a {
            assert(a[0] == t);
        }
    } else {
        if p[0] == a[0] {
            let p1 = p.skip(1);
            let a1 = a.skip(1);
            lemma_lex_push_le(p1, t, a1);
            assert(q.skip(1) =~= p1.push(t));
            assert(a1.subrange(0, p1.len() as int) =~= pre.skip(1));
            assert(a1[p1.len() as int] == a[p.len() as int]);
            // relate each disjunct one level down
            assert(lex_lt(p, pre) == lex_lt(p1, pre.skip(1)));
            if p1 == pre.skip(1) {
                lemma_head_tail_eq(p, pre);
            }
            if p == pre {
                assert(p1 =~= pre.skip(1));
            }
            if q.skip(1) == a1 {
                lemma_head_tail_eq(q, a);
            }
            if q == a {
                assert(q.skip(1) =~= a1);
            }
            assert(lex_lt(q, a) == lex_lt(q.skip(1), a1));
        } else {
            if q == a {
                assert(q[0] == a[0]);
                assert(false);
            }
            if p == pre {
                assert(p[0] == pre[0]);
                assert(false);
            }
        }
    }
}

/// The strict form of the same decomposition.
pub proof fn lemma_lex_push_lt(p: Seq<usize>, t: usize, a: Seq<usize>)
    requires
        a.len() == p.len() + 1,
    ensures
        lex_lt(p.push(t), a) == (lex_lt(p, a.subrange(0, p.len() as int)) || (p == a.subrange(
            0,
            p.len() as int,
        ) && a[p.len() as int] > t)),
    decreases p.len(),
{
    let q = p.push(t);
    let pre = a.subrange(0, p.len() as int);
    if p.len() == 0 {
        assert(pre =~= p);
        assert(q[0] == t);
        assert(q.skip(1).len() == 0);
        assert(!lex_lt(q.skip(1), a.skip(1)));
        assert(lex_lt(q, a) == (t < a[0]));
    } else {
        if p[0] == a[0] {
            let p1 = p.skip(1);
            let a1 = a.skip(1);
            lemma_lex_push_lt(p1, t, a1);
            assert(q.skip(1) =~= p1.push(t));
            assert(a1.subrange(0, p1.len() as int) =~= pre.skip(1));
            assert(a1[p1.len() as int] == a[p.len() as int]);
            assert(lex_lt(p, pre) == lex_lt(p1, pre.skip(1)));
            if p1 == pre.skip(1) {
                lemma_head_tail_eq(p, pre);
            }
            if p == pre {
                assert(p1 =~= pre.skip(1));
            }
            assert(lex_lt(q, a) == lex_lt(q.skip(1), a1));
        } else {
            if p == pre {
                assert(p[0] == pre[0]);
                assert(false);
            }
        }
    }
}

/// `a` falls below `b` at position `k`: they agree before `k` and
/// differ there.
pub open spec fn lex_lt_at(a: Seq<usize>, b: Seq<usize>, k: int) -> bool {
    &&& 0 <= k < a.len()
    &&& k < b.len()
    &&& a[k] < b[k]
    &&& (forall|j: int| 0 <= j < k ==> a[j] == b[j])
}

/// The strict order holds exactly when the cursors first differ at a
/// position where the left one is smaller.
pub proof fn lemma_lex_lt_first_diff(a: Seq<usize>, b: Seq<usize>)
    requires
        a.len() == b.len(),
    ensures
        lex_lt(a, b) <==> exists|k: int| #[trigger] lex_lt_at(a, b, k),
    decreases a.len(),
{
    if a.len() == 0 {
        if exists|k: int| #[trigger] lex_lt_at(a, b, k) {
            let k = choose|k: int| #[trigger] lex_lt_at(a, b, k);
            assert(false);
        }
    } else if a[0] < b[0] {
        assert(lex_lt_at(a, b, 0));
    } else if a[0] == b[0] {
        lemma_lex_lt_first_diff(a.skip(1), b.skip(1));
        if lex_lt(a, b) {
            let k = choose|k: int| #[trigger] lex_lt_at(a.skip(1), b.skip(1), k);
            assert forall|j: int| 0 <= j < k + 1 implies a[j] == b[j] by {
                if j > 0 {
                    assert(a.skip(1)[j - 1] == b.skip(1)[j - 1]);
                }
            }
            assert(a.skip(1)[k] == a[k + 1]);
            assert(b.skip(1)[k] == b[k + 1]);
            assert(lex_lt_at(a, b, k + 1));
        }
        if exists|k: int| #[trigger] lex_lt_at(a, b, k) {
            let k = choose|k: int| #[trigger] lex_lt_at(a, b, k);
            assert(k >= 1);
            assert forall|j: int| 0 <= j < k - 1 implies a.skip(1)[j] == b.skip(1)[j] by {
                assert(a[j + 1] == b[j + 1]);
            }
            assert(a.skip(1)[k - 1] == a[k]);
            assert(b.skip(1)[k - 1] == b[k]);
            assert(lex_lt_at(a.skip(1), b.skip(1), k - 1));
        }
    } else {
        if exists|k: int| #[trigger] lex_lt_at(a, b, k) {
            let k = choose|k: int| #[trigger] lex_lt_at(a, b, k);
            assert(k != 0);
            assert(a[0] == b[0]);
            assert(false);
        }
    }
}

/// Two cursors below or equal to each other are the same cursor.
pub proof fn lemma_lex_antisymmetric(a: Seq<usize>, b: Seq<usize>)
    requires
        a.len() == b.len(),
        lex_le(a, b),
        lex_le(b, a),
    ensures
        a == b,
{
    if lex_lt(a, b) && lex_lt(b, a) {
        lemma_lex_lt_trans(a, b, a);
        lemma_lex_irrefl(a);
    }
}

/// Every cursor of positive length is at or beyond the starting
/// cursor, which tries index zero at the root.
pub proof fn lemma_at_or_beyond_start(l: Seq<usize>)
    requires
        l.len() >= 1,
    ensures
        at_or_beyond(l, seq![0usize]),
{
    let s = seq![0usize];
    let pre = l.subrange(0, 1);
    if pre[0] == 0 {
        assert(s =~= pre);
    } else {
        assert(lex_lt(s, pre));
    }
}

} // verus!
