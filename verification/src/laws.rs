//! Laws of the enumeration order: the walk visits every leaf exactly
//! once, in strictly increasing cursor order; handing a result's
//! position back resumes exactly at that result, so iterated calls
//! walk the leaves one successor at a time; and the backward walk
//! over reversed groups is the forward walk's mirror image.

use vstd::prelude::*;

use crate::course::Section;
use crate::cursor::lemma_lex_antisymmetric;
use crate::cursor::lemma_lex_lt_first_diff;
use crate::cursor::lemma_lex_total;
use crate::cursor::lex_le;
use crate::cursor::lex_lt;
use crate::cursor::lex_lt_at;
use crate::course::ThinSection;
use crate::schedule::advance_spec;
use crate::schedule::distinct_crns;
use crate::schedule::exhausted_spec;
use crate::schedule::model_choice_in_range;
use crate::schedule::model_decodable;
use crate::schedule::model_decodes_to;
use crate::schedule::model_is_first_crn_index;
use crate::schedule::model_is_first_leaf;
use crate::schedule::model_is_next_leaf;
use crate::schedule::model_no_leaf;
use crate::schedule::model_no_next_leaf;
use crate::schedule::model_pair_free;
use crate::schedule::model_resumable;
use crate::schedule::model_valid_leaf;
use crate::schedule::position_of;
use crate::schedule::reversed_groups;

verus! {

/// One in-range index per group, without the conflict-freedom of a
/// valid leaf.
pub open spec fn full_choice(sg: Seq<Seq<Section>>, l: Seq<usize>) -> bool {
    l.len() == sg.len() && (forall|i: int|
        0 <= i < l.len() ==> #[trigger] model_choice_in_range(sg, l, i))
}

// ------------------------------------------------------------------
// Leaves as numbers: the cursor order agrees with a mixed-radix value,
// which makes the order well-founded.
// ------------------------------------------------------------------

/// How many index combinations the groups from `from` onward offer.
spec fn space_size(sg: Seq<Seq<Section>>, from: int) -> int
    decreases sg.len() - from,
{
    if from < 0 || from >= sg.len() {
        1
    } else {
        sg[from].len() * space_size(sg, from + 1)
    }
}

/// The mixed-radix value of the cursor digits at depth `d` and below.
spec fn leaf_value(sg: Seq<Seq<Section>>, l: Seq<usize>, d: int) -> int
    decreases l.len() - d,
{
    if d < 0 || d >= l.len() {
        0
    } else {
        l[d] * space_size(sg, d + 1) + leaf_value(sg, l, d + 1)
    }
}

proof fn lemma_space_size_pos(sg: Seq<Seq<Section>>, from: int)
    requires
        forall|i: int| 0 <= i < sg.len() ==> #[trigger] sg[i].len() > 0,
    ensures
        space_size(sg, from) >= 1,
    decreases sg.len() - from,
{
    if 0 <= from && from < sg.len() {
        lemma_space_size_pos(sg, from + 1);
        let a = sg[from].len() as int;
        let b = space_size(sg, from + 1);
        assert(a * b >= 1) by (nonlinear_arith)
            requires
                a >= 1,
                b >= 1,
        ;
    }
}

proof fn lemma_leaf_value_nonneg(sg: Seq<Seq<Section>>, l: Seq<usize>, d: int)
    requires
        forall|i: int| 0 <= i < sg.len() ==> #[trigger] sg[i].len() > 0,
    ensures
        leaf_value(sg, l, d) >= 0,
    decreases l.len() - d,
{
    if 0 <= d && d < l.len() {
        lemma_leaf_value_nonneg(sg, l, d + 1);
        lemma_space_size_pos(sg, d + 1);
        let x = l[d] as int;
        let p = space_size(sg, d + 1);
        assert(x * p >= 0) by (nonlinear_arith)
            requires
                x >= 0,
                p >= 1,
        ;
    }
}

/// An in-range cursor's value stays strictly inside its space.
proof fn lemma_leaf_value_bound(sg: Seq<Seq<Section>>, l: Seq<usize>, d: int)
    requires
        full_choice(sg, l),
        forall|i: int| 0 <= i < sg.len() ==> #[trigger] sg[i].len() > 0,
        0 <= d <= l.len(),
    ensures
        leaf_value(sg, l, d) <= space_size(sg, d) - 1,
    decreases l.len() - d,
{
    lemma_space_size_pos(sg, d);
    if d < l.len() {
        lemma_leaf_value_bound(sg, l, d + 1);
        assert(model_choice_in_range(sg, l, d));
        let x = l[d] as int;
        let p = space_size(sg, d + 1);
        let size = sg[d].len() as int;
        lemma_space_size_pos(sg, d + 1);
        assert(x * p <= (size - 1) * p) by (nonlinear_arith)
            requires
                x <= size - 1,
                p >= 0,
        ;
        assert((size - 1) * p + (p - 1) == size * p - 1) by (nonlinear_arith);
        assert(space_size(sg, d) == size * p);
    }
}

/// Cursors that agree above depth `k` differ only in their tails.
proof fn lemma_leaf_value_common_prefix(sg: Seq<Seq<Section>>, a: Seq<usize>, b: Seq<usize>, d: int, k: int)
    requires
        0 <= d <= k,
        k <= a.len(),
        a.len() == b.len(),
        forall|j: int| 0 <= j < k ==> a[j] == b[j],
    ensures
        leaf_value(sg, a, d) - leaf_value(sg, a, k) == leaf_value(sg, b, d) - leaf_value(sg, b, k),
    decreases k - d,
{
    if d < k {
        lemma_leaf_value_common_prefix(sg, a, b, d + 1, k);
        assert(a[d] == b[d]);
    }
}

/// The cursor order agrees with the mixed-radix value on in-range
/// cursors of full length.
proof fn lemma_lex_lt_value(sg: Seq<Seq<Section>>, a: Seq<usize>, b: Seq<usize>)
    requires
        full_choice(sg, a),
        full_choice(sg, b),
        forall|i: int| 0 <= i < sg.len() ==> #[trigger] sg[i].len() > 0,
        lex_lt(a, b),
    ensures
        leaf_value(sg, a, 0) < leaf_value(sg, b, 0),
{
    lemma_lex_lt_first_diff(a, b);
    let k = choose|k: int| #[trigger] lex_lt_at(a, b, k);
    lemma_leaf_value_common_prefix(sg, a, b, 0, k);
    lemma_leaf_value_bound(sg, a, k + 1);
    lemma_leaf_value_nonneg(sg, b, k + 1);
    lemma_space_size_pos(sg, k + 1);
    let p = space_size(sg, k + 1);
    let xa = a[k] as int;
    let xb = b[k] as int;
    assert(leaf_value(sg, a, k) == xa * p + leaf_value(sg, a, k + 1));
    assert(leaf_value(sg, b, k) == xb * p + leaf_value(sg, b, k + 1));
    assert(space_size(sg, k + 1) == p);
    assert(leaf_value(sg, a, k + 1) <= p - 1);
    assert(xa * p + (p - 1) < xb * p) by (nonlinear_arith)
        requires
            xa < xb,
            p >= 1,
    ;
}

// ------------------------------------------------------------------
// The walk visits every leaf of the pruned tree exactly once.
// ------------------------------------------------------------------

/// Each step moves strictly forward in the cursor order.
pub proof fn lemma_walk_strictly_increases(sg: Seq<Seq<Section>>, p: Seq<usize>, l: Seq<usize>)
    requires
        model_is_next_leaf(sg, p, l),
    ensures
        model_valid_leaf(sg, l),
        lex_lt(p, l),
{
}

/// No leaf between two consecutive results is ever skipped.
pub proof fn lemma_walk_skips_no_leaf(
    sg: Seq<Seq<Section>>,
    p: Seq<usize>,
    l: Seq<usize>,
    other: Seq<usize>,
)
    requires
        model_is_next_leaf(sg, p, l),
        model_valid_leaf(sg, other),
        lex_lt(p, other),
    ensures
        lex_le(l, other),
{
}

/// Each position has at most one successor leaf: no duplicates.
pub proof fn lemma_next_leaf_unique(
    sg: Seq<Seq<Section>>,
    p: Seq<usize>,
    a: Seq<usize>,
    b: Seq<usize>,
)
    requires
        model_is_next_leaf(sg, p, a),
        model_is_next_leaf(sg, p, b),
    ensures
        a == b,
{
    lemma_lex_antisymmetric(a, b);
}

/// Walking with a leaf between the prior and the found one climbs
/// toward the true predecessor and must reach it.
proof fn lemma_predecessor_from(sg: Seq<Seq<Section>>, l: Seq<usize>, l0: Seq<usize>)
    requires
        model_valid_leaf(sg, l),
        model_valid_leaf(sg, l0),
        forall|i: int| 0 <= i < sg.len() ==> #[trigger] sg[i].len() > 0,
        lex_lt(l0, l),
    ensures
        exists|p: Seq<usize>| #[trigger] model_valid_leaf(sg, p) && model_is_next_leaf(sg, p, l),
    decreases leaf_value(sg, l, 0) - leaf_value(sg, l0, 0),
{
    lemma_lex_lt_value(sg, l0, l);
    if model_is_next_leaf(sg, l0, l) {
        assert(model_valid_leaf(sg, l0) && model_is_next_leaf(sg, l0, l));
    } else {
        let l2 = choose|l2: Seq<usize>| #[trigger]
            model_valid_leaf(sg, l2) && lex_lt(l0, l2) && !lex_le(l, l2);
        lemma_lex_total(l2, l);
        assert(lex_lt(l2, l));
        lemma_lex_lt_value(sg, l0, l2);
        lemma_lex_lt_value(sg, l2, l);
        lemma_predecessor_from(sg, l, l2);
    }
}

/// Every leaf of the pruned tree is reached by the walk: it is the
/// very first leaf, or the successor of another leaf. Together with
/// the strict increase, the skip-freedom, and the uniqueness of
/// successors, the walk from the start visits each leaf exactly once.
pub proof fn lemma_walk_reaches_every_leaf(sg: Seq<Seq<Section>>, l: Seq<usize>)
    requires
        model_valid_leaf(sg, l),
        forall|i: int| 0 <= i < sg.len() ==> #[trigger] sg[i].len() > 0,
    ensures
        model_is_first_leaf(sg, l) || exists|p: Seq<usize>| #[trigger]
            model_valid_leaf(sg, p) && model_is_next_leaf(sg, p, l),
{
    if !model_is_first_leaf(sg, l) {
        let l2 = choose|l2: Seq<usize>| #[trigger] model_valid_leaf(sg, l2) && !lex_le(l, l2);
        lemma_lex_total(l2, l);
        assert(lex_lt(l2, l));
        lemma_predecessor_from(sg, l, l2);
    }
}

// ------------------------------------------------------------------
// Forward and backward enumeration are mirror images.
// ------------------------------------------------------------------

/// The cursor seen from the other end of every group: choice `x`
/// becomes choice `len - 1 - x`.
pub open spec fn mirror(sg: Seq<Seq<Section>>, l: Seq<usize>) -> Seq<usize> {
    Seq::new(l.len(), |i: int| (sg[i].len() - 1 - l[i]) as usize)
}

/// Every group is small enough for its indices to be machine words;
/// groups built from vectors always are.
pub open spec fn bounded_groups(sg: Seq<Seq<Section>>) -> bool {
    forall|i: int| 0 <= i < sg.len() ==> #[trigger] sg[i].len() <= usize::MAX
}

/// What one mirrored choice is, as an integer.
proof fn lemma_mirror_index(sg: Seq<Seq<Section>>, l: Seq<usize>, i: int)
    requires
        full_choice(sg, l),
        bounded_groups(sg),
        0 <= i < l.len(),
    ensures
        (mirror(sg, l)[i] as int) == sg[i].len() - 1 - l[i],
        (mirror(sg, l)[i] as int) < sg[i].len(),
{
    assert(model_choice_in_range(sg, l, i));
    assert(sg[i].len() <= usize::MAX);
    assert(mirror(sg, l)[i] == (sg[i].len() - 1 - l[i]) as usize);
}

/// Mirroring keeps choices in range and undoes itself.
pub proof fn lemma_mirror_involution(sg: Seq<Seq<Section>>, l: Seq<usize>)
    requires
        full_choice(sg, l),
        bounded_groups(sg),
    ensures
        full_choice(reversed_groups(sg), mirror(sg, l)),
        mirror(reversed_groups(sg), mirror(sg, l)) == l,
{
    let rg = reversed_groups(sg);
    let m = mirror(sg, l);
    assert forall|i: int| 0 <= i < m.len() implies #[trigger] model_choice_in_range(rg, m, i) by {
        lemma_mirror_index(sg, l, i);
        assert(rg[i] == sg[i].reverse());
    }
    assert(bounded_groups(rg)) by {
        assert forall|i: int| 0 <= i < rg.len() implies #[trigger] rg[i].len() <= usize::MAX by {
            assert(rg[i] == sg[i].reverse());
            assert(sg[i].len() <= usize::MAX);
        }
    }
    assert forall|i: int| 0 <= i < l.len() implies mirror(rg, m)[i] == l[i] by {
        lemma_mirror_index(sg, l, i);
        assert(rg[i] == sg[i].reverse());
        assert(full_choice(rg, m));
        lemma_mirror_index(rg, m, i);
    }
    assert(mirror(rg, m) =~= l);
}

/// A cursor is a leaf of the reversed groups exactly when its mirror
/// is a leaf of the unreversed ones.
pub proof fn lemma_mirror_valid(sg: Seq<Seq<Section>>, l: Seq<usize>)
    requires
        full_choice(sg, l),
        bounded_groups(sg),
    ensures
        model_valid_leaf(reversed_groups(sg), mirror(sg, l)) == model_valid_leaf(sg, l),
{
    let rg = reversed_groups(sg);
    let m = mirror(sg, l);
    lemma_mirror_involution(sg, l);
    assert forall|i: int, j: int|
        0 <= i < l.len() && 0 <= j < l.len() && i != j implies (#[trigger] model_pair_free(
        sg,
        l,
        i,
        j,
    )) == model_pair_free(rg, m, i, j) by {
        assert(model_choice_in_range(sg, l, i));
        assert(model_choice_in_range(sg, l, j));
        lemma_mirror_index(sg, l, i);
        lemma_mirror_index(sg, l, j);
        assert(rg[i] == sg[i].reverse());
        assert(rg[j] == sg[j].reverse());
        assert(rg[i][m[i] as int] == sg[i][sg[i].len() - 1 - (m[i] as int)]);
        assert(rg[i][m[i] as int] == sg[i][l[i] as int]);
        assert(rg[j][m[j] as int] == sg[j][l[j] as int]);
    }
    if model_valid_leaf(sg, l) {
        assert forall|i: int, j: int| 0 <= i < j < m.len() implies #[trigger] model_pair_free(
            rg,
            m,
            i,
            j,
        ) by {
            assert(model_pair_free(sg, l, i, j));
        }
        assert(model_valid_leaf(rg, m));
    }
    if model_valid_leaf(rg, m) {
        assert forall|i: int, j: int| 0 <= i < j < l.len() implies #[trigger] model_pair_free(
            sg,
            l,
            i,
            j,
        ) by {
            assert(model_pair_free(rg, m, i, j));
        }
        assert(model_valid_leaf(sg, l));
    }
}

/// Mirroring turns the cursor order around.
pub proof fn lemma_mirror_flips_order(sg: Seq<Seq<Section>>, a: Seq<usize>, b: Seq<usize>)
    requires
        full_choice(sg, a),
        full_choice(sg, b),
        bounded_groups(sg),
    ensures
        lex_lt(a, b) == lex_lt(mirror(sg, b), mirror(sg, a)),
{
    let ma = mirror(sg, a);
    let mb = mirror(sg, b);
    lemma_lex_lt_first_diff(a, b);
    lemma_lex_lt_first_diff(mb, ma);
    if lex_lt(a, b) {
        let k = choose|k: int| #[trigger] lex_lt_at(a, b, k);
        lemma_mirror_index(sg, a, k);
        lemma_mirror_index(sg, b, k);
        assert(lex_lt_at(mb, ma, k)) by {
            assert forall|j: int| 0 <= j < k implies mb[j] == ma[j] by {
                assert(a[j] == b[j]);
                lemma_mirror_index(sg, a, j);
                lemma_mirror_index(sg, b, j);
            }
        }
    }
    if lex_lt(mb, ma) {
        let k = choose|k: int| #[trigger] lex_lt_at(mb, ma, k);
        lemma_mirror_index(sg, a, k);
        lemma_mirror_index(sg, b, k);
        assert(lex_lt_at(a, b, k)) by {
            assert forall|j: int| 0 <= j < k implies a[j] == b[j] by {
                assert(mb[j] == ma[j]);
                lemma_mirror_index(sg, a, j);
                lemma_mirror_index(sg, b, j);
            }
        }
    }
}

/// The leaf the walk would emit directly before `p` in forward order.
pub open spec fn model_is_prev_leaf(sg: Seq<Seq<Section>>, p: Seq<usize>, l: Seq<usize>) -> bool {
    &&& model_valid_leaf(sg, l)
    &&& lex_lt(l, p)
    &&& (forall|l2: Seq<usize>| #[trigger] model_valid_leaf(sg, l2) && lex_lt(l2, p) ==> lex_le(
        l2,
        l,
    ))
}

/// Law: enumerating backward is enumerating the mirror image. One
/// backward step over the reversed groups, taken from a leaf's
/// mirror, lands exactly on the mirror of the leaf that precedes it
/// in forward order — so the backward walk revisits the forward
/// walk's leaves in reverse order.
pub proof fn lemma_mirror_enumeration(sg: Seq<Seq<Section>>, p: Seq<usize>, l: Seq<usize>)
    requires
        full_choice(sg, p),
        full_choice(sg, l),
        bounded_groups(sg),
    ensures
        model_is_next_leaf(reversed_groups(sg), mirror(sg, p), mirror(sg, l)) == model_is_prev_leaf(
            sg,
            p,
            l,
        ),
{
    let rg = reversed_groups(sg);
    let mp = mirror(sg, p);
    let ml = mirror(sg, l);
    lemma_mirror_involution(sg, p);
    lemma_mirror_involution(sg, l);
    lemma_mirror_valid(sg, l);
    lemma_mirror_flips_order(sg, l, p);
    if model_is_next_leaf(rg, mp, ml) {
        assert forall|l2: Seq<usize>| #[trigger]
            model_valid_leaf(sg, l2) && lex_lt(l2, p) implies lex_le(l2, l) by {
            let m2 = mirror(sg, l2);
            lemma_mirror_involution(sg, l2);
            lemma_mirror_valid(sg, l2);
            lemma_mirror_flips_order(sg, l2, p);
            assert(model_valid_leaf(rg, m2) && lex_lt(mp, m2));
            assert(lex_le(ml, m2));
            if lex_lt(ml, m2) {
                lemma_mirror_flips_order(sg, l2, l);
                assert(lex_lt(l2, l));
            } else {
                assert(ml == m2);
                assert(mirror(rg, ml) == mirror(rg, m2));
                assert(l == l2);
            }
        }
        assert(model_is_prev_leaf(sg, p, l));
    }
    if model_is_prev_leaf(sg, p, l) {
        assert forall|l2: Seq<usize>| #[trigger]
            model_valid_leaf(rg, l2) && lex_lt(mp, l2) implies lex_le(ml, l2) by {
            let b2 = mirror(rg, l2);
            assert(full_choice(rg, l2));
            lemma_mirror_involution(rg, l2);
            lemma_mirror_valid(rg, l2);
            assert(reversed_groups(rg) =~= sg) by {
                assert forall|i: int| 0 <= i < sg.len() implies reversed_groups(rg)[i] == sg[i] by {
                    assert(rg[i] == sg[i].reverse());
                    assert(sg[i].reverse().reverse() =~= sg[i]);
                }
            }
            assert(model_valid_leaf(sg, b2));
            lemma_mirror_flips_order(sg, b2, p);
            assert(mirror(sg, b2) == l2);
            assert(lex_lt(b2, p));
            assert(lex_le(b2, l));
            if lex_lt(b2, l) {
                lemma_mirror_flips_order(sg, b2, l);
            } else {
                assert(b2 == l);
            }
        }
        assert(model_is_next_leaf(rg, mp, ml));
    }
}

// ------------------------------------------------------------------
// Iterating the walk: a result's position resumes at that result.
// ------------------------------------------------------------------

/// A leaf the walk emitted is never treated as stale on the next
/// call: its committed choices are pairwise conflict-free.
pub proof fn lemma_leaf_resumable(sg: Seq<Seq<Section>>, l: Seq<usize>)
    requires
        model_valid_leaf(sg, l),
    ensures
        model_resumable(sg, l),
{
    assert forall|a: int, b: int| 0 <= a < b < l.len() - 1 implies #[trigger] model_pair_free(
        sg,
        l,
        a,
        b,
    ) by {
        assert(model_pair_free(sg, l, a, b));
    }
}

/// The codec round trip: with each group naming every registration
/// number once, a full cursor's own position decodes back to it.
pub proof fn lemma_position_round_trip(sg: Seq<Seq<Section>>, l: Seq<usize>)
    requires
        full_choice(sg, l),
        distinct_crns(sg),
    ensures
        model_decodes_to(sg, position_of(sg, l), l),
{
    let st = position_of(sg, l);
    assert forall|i: int| 0 <= i < st.len() implies model_is_first_crn_index(
        sg[i],
        st[i].crn,
        #[trigger] l[i],
    ) by {
        assert(model_choice_in_range(sg, l, i));
        assert(st[i].crn == sg[i][l[i] as int].crn);
        assert forall|k: int| 0 <= k < l[i] implies sg[i][k].crn != st[i].crn by {
            assert(sg[i][k].crn != sg[i][l[i] as int].crn);
        }
    }
}

/// A position decodes to at most one cursor.
pub proof fn lemma_position_decodes_uniquely(
    sg: Seq<Seq<Section>>,
    st: Seq<ThinSection>,
    a: Seq<usize>,
    b: Seq<usize>,
)
    requires
        model_decodes_to(sg, st, a),
        model_decodes_to(sg, st, b),
    ensures
        a == b,
{
    assert forall|i: int| 0 <= i < a.len() implies a[i] == b[i] by {
        assert(model_is_first_crn_index(sg[i], st[i].crn, a[i]));
        assert(model_is_first_crn_index(sg[i], st[i].crn, b[i]));
        if (a[i] as int) < (b[i] as int) {
            assert(sg[i][a[i] as int].crn != st[i].crn);
        }
        if (b[i] as int) < (a[i] as int) {
            assert(sg[i][b[i] as int].crn != st[i].crn);
        }
    }
    assert(a =~= b);
}

/// Law: handing an emitted leaf's position back resumes exactly at
/// that leaf. The position decodes to the leaf alone and the leaf is
/// still resumable, so the next result is the leaf's immediate
/// successor — or exhaustion when none remains. Iterating from the
/// start therefore walks the leaves one successor at a time.
pub proof fn lemma_iteration_resumes_at_leaf(sg: Seq<Seq<Section>>, l: Seq<usize>)
    requires
        model_valid_leaf(sg, l),
        distinct_crns(sg),
    ensures
        model_decodable(sg, position_of(sg, l)),
        model_resumable(sg, l),
        forall|ix: Seq<usize>| #[trigger] model_decodes_to(sg, position_of(sg, l), ix) ==> ix == l,
        forall|l2: Seq<usize>| #[trigger]
            advance_spec(sg, Some(position_of(sg, l)), l2) == model_is_next_leaf(sg, l, l2),
        exhausted_spec(sg, Some(position_of(sg, l))) == model_no_next_leaf(sg, l),
{
    let st = position_of(sg, l);
    lemma_position_round_trip(sg, l);
    lemma_leaf_resumable(sg, l);
    assert(model_decodable(sg, st)) by {
        assert(model_decodes_to(sg, st, l));
    }
    assert forall|ix: Seq<usize>| #[trigger] model_decodes_to(sg, st, ix) implies ix == l by {
        lemma_position_decodes_uniquely(sg, st, ix, l);
    }
    assert forall|l2: Seq<usize>| #[trigger]
        advance_spec(sg, Some(st), l2) == model_is_next_leaf(sg, l, l2) by {
        if advance_spec(sg, Some(st), l2) {
            assert(model_decodes_to(sg, st, l));
        }
        if model_is_next_leaf(sg, l, l2) {
            assert forall|ix: Seq<usize>| #[trigger]
                model_decodes_to(sg, st, ix) implies (if model_resumable(sg, ix) {
                model_is_next_leaf(sg, ix, l2)
            } else {
                model_is_first_leaf(sg, l2)
            }) by {
                lemma_position_decodes_uniquely(sg, st, ix, l);
            }
        }
    }
    assert(exhausted_spec(sg, Some(st)) == model_no_next_leaf(sg, l)) by {
        if exhausted_spec(sg, Some(st)) {
            assert(model_decodes_to(sg, st, l));
        }
        if model_no_next_leaf(sg, l) {
            assert forall|ix: Seq<usize>| #[trigger]
                model_decodes_to(sg, st, ix) implies (if model_resumable(sg, ix) {
                model_no_next_leaf(sg, ix)
            } else {
                model_no_leaf(sg)
            }) by {
                lemma_position_decodes_uniquely(sg, st, ix, l);
            }
        }
    }
}

/// Law: the same position, handed to the backward walk, decodes over
/// the reversed groups to the leaf's mirror — so one backward call
/// from an emitted leaf lands on the leaf's forward predecessor.
pub proof fn lemma_backward_resumes_at_mirror(sg: Seq<Seq<Section>>, l: Seq<usize>)
    requires
        full_choice(sg, l),
        distinct_crns(sg),
        bounded_groups(sg),
    ensures
        model_decodes_to(reversed_groups(sg), position_of(sg, l), mirror(sg, l)),
{
    let rg = reversed_groups(sg);
    let st = position_of(sg, l);
    let m = mirror(sg, l);
    assert forall|i: int| 0 <= i < st.len() implies model_is_first_crn_index(
        rg[i],
        st[i].crn,
        #[trigger] m[i],
    ) by {
        assert(model_choice_in_range(sg, l, i));
        lemma_mirror_index(sg, l, i);
        assert(rg[i] == sg[i].reverse());
        assert(rg[i][m[i] as int] == sg[i][sg[i].len() - 1 - (m[i] as int)]);
        assert(rg[i][m[i] as int].crn == st[i].crn);
        assert forall|k: int| 0 <= k < m[i] implies rg[i][k].crn != st[i].crn by {
            let orig = sg[i].len() - 1 - k;
            assert(rg[i][k] == sg[i][orig]);
            assert((l[i] as int) < orig < sg[i].len());
            assert(sg[i][l[i] as int].crn != sg[i][orig].crn);
        }
    }
}

} // verus!
