//! One advance of the schedule walk, stated over full course data.

use vstd::prelude::*;

use crate::conflict::spec_conflicts;
use crate::course::Course;
use crate::course::Section;
use crate::course::ThinSection;
use crate::course::same_section;
use crate::course::same_sections;
use crate::cursor::lex_le;
use crate::cursor::lex_lt;
use crate::engine::Group;
use crate::engine::Groups;
use crate::engine::compacts_group;
use crate::engine::compacts_groups;
use crate::engine::compacts_section;
use crate::engine::chosen;
use crate::engine::find_next;
use crate::engine::lemma_compact_sections_conflict;
use crate::engine::sections_conflict;
use crate::engine;
use crate::grouping::group_views;
use crate::grouping::lemma_spec_partition_nonempty;
use crate::grouping::partition;
use crate::grouping::same_groups;
use crate::grouping::spec_partition;

verus! {

// ------------------------------------------------------------------
// The walk's outcome, stated over the full sections themselves.
// ------------------------------------------------------------------

/// The index chosen at depth `i` names a section of group `i`.
pub open spec fn model_choice_in_range(sg: Seq<Seq<Section>>, c: Seq<usize>, i: int) -> bool {
    (c[i] as int) < sg[i].len()
}

/// The sections chosen at depths `i` and `j` do not conflict.
pub open spec fn model_pair_free(sg: Seq<Seq<Section>>, c: Seq<usize>, i: int, j: int) -> bool {
    !sections_conflict(sg[i][c[i] as int], sg[j][c[j] as int])
}

/// A full cursor naming one in-range section per group, all pairwise
/// conflict-free.
pub open spec fn model_valid_leaf(sg: Seq<Seq<Section>>, l: Seq<usize>) -> bool {
    &&& l.len() == sg.len()
    &&& (forall|i: int| 0 <= i < l.len() ==> #[trigger] model_choice_in_range(sg, l, i))
    &&& (forall|i: int, j: int| 0 <= i < j < l.len() ==> #[trigger] model_pair_free(sg, l, i, j))
}

/// The first leaf of the pruned tree in cursor order.
pub open spec fn model_is_first_leaf(sg: Seq<Seq<Section>>, l: Seq<usize>) -> bool {
    &&& model_valid_leaf(sg, l)
    &&& (forall|l2: Seq<usize>| #[trigger] model_valid_leaf(sg, l2) ==> lex_le(l, l2))
}

/// The pruned tree has no leaf at all.
pub open spec fn model_no_leaf(sg: Seq<Seq<Section>>) -> bool {
    forall|l2: Seq<usize>| !model_valid_leaf(sg, l2)
}

/// The first leaf strictly after `p` in cursor order.
pub open spec fn model_is_next_leaf(sg: Seq<Seq<Section>>, p: Seq<usize>, l: Seq<usize>) -> bool {
    &&& model_valid_leaf(sg, l)
    &&& lex_lt(p, l)
    &&& (forall|l2: Seq<usize>| #[trigger] model_valid_leaf(sg, l2) && lex_lt(p, l2) ==> lex_le(
        l,
        l2,
    ))
}

/// No leaf lies strictly after `p` in cursor order.
pub open spec fn model_no_next_leaf(sg: Seq<Seq<Section>>, p: Seq<usize>) -> bool {
    forall|l2: Seq<usize>| #[trigger] model_valid_leaf(sg, l2) ==> !lex_lt(p, l2)
}

/// `j` is the first index within `secs` whose section carries `crn`.
pub open spec fn model_is_first_crn_index(secs: Seq<Section>, crn: u64, j: usize) -> bool {
    &&& (j as int) < secs.len()
    &&& secs[j as int].crn == crn
    &&& (forall|k: int| 0 <= k < j ==> secs[k].crn != crn)
}

/// The external position decodes to the cursor `ix` against the
/// groups, identifier by identifier.
pub open spec fn model_decodes_to(
    sg: Seq<Seq<Section>>,
    st: Seq<ThinSection>,
    ix: Seq<usize>,
) -> bool {
    &&& ix.len() == st.len()
    &&& st.len() == sg.len()
    &&& (forall|i: int|
        0 <= i < st.len() ==> model_is_first_crn_index(sg[i], st[i].crn, #[trigger] ix[i]))
}

/// The external position still resolves against the groups.
pub open spec fn model_decodable(sg: Seq<Seq<Section>>, st: Seq<ThinSection>) -> bool {
    exists|ix: Seq<usize>| model_decodes_to(sg, st, ix)
}

/// A decoded position whose committed choices are still pairwise
/// conflict-free; one that now conflicts is treated as stale.
pub open spec fn model_resumable(sg: Seq<Seq<Section>>, ix: Seq<usize>) -> bool {
    forall|a: int, b: int| 0 <= a < b < ix.len() - 1 ==> #[trigger] model_pair_free(sg, ix, a, b)
}

/// The groups with each group's alternatives reversed: the only
/// accommodation backward enumeration needs.
pub open spec fn reversed_groups(sg: Seq<Seq<Section>>) -> Seq<Seq<Section>> {
    Seq::new(sg.len(), |i: int| sg[i].reverse())
}

/// The sections a full cursor picks, one per group in order.
pub open spec fn picked(sg: Seq<Seq<Section>>, l: Seq<usize>) -> Seq<Section> {
    Seq::new(l.len(), |i: int| sg[i][l[i] as int])
}

/// The external position of a full cursor: the chosen sections'
/// registration numbers, group by group — the encode direction of
/// the codec.
pub open spec fn position_of(sg: Seq<Seq<Section>>, l: Seq<usize>) -> Seq<ThinSection> {
    Seq::new(l.len(), |i: int| ThinSection { crn: sg[i][l[i] as int].crn })
}

/// Every group names each registration number at most once; course
/// data always does.
pub open spec fn distinct_crns(sg: Seq<Seq<Section>>) -> bool {
    forall|i: int, a: int, b: int|
        #![trigger sg[i][a].crn, sg[i][b].crn]
        0 <= i < sg.len() && 0 <= a < b < sg[i].len() ==> sg[i][a].crn != sg[i][b].crn
}

/// What the returned leaf must be, given the supplied position: the
/// leaf after a decodable, still-resumable position, and the first
/// leaf otherwise — a stale position restarts the walk.
pub open spec fn advance_spec(
    sg: Seq<Seq<Section>>,
    st: Option<Seq<ThinSection>>,
    l: Seq<usize>,
) -> bool {
    match st {
        Some(stv) => if model_decodable(sg, stv) {
            forall|ix: Seq<usize>| #[trigger]
                model_decodes_to(sg, stv, ix) ==> if model_resumable(sg, ix) {
                    model_is_next_leaf(sg, ix, l)
                } else {
                    model_is_first_leaf(sg, l)
                }
        } else {
            model_is_first_leaf(sg, l)
        },
        None => model_is_first_leaf(sg, l),
    }
}

/// When the walk must report exhaustion instead of a leaf.
pub open spec fn exhausted_spec(sg: Seq<Seq<Section>>, st: Option<Seq<ThinSection>>) -> bool {
    match st {
        Some(stv) => if model_decodable(sg, stv) {
            forall|ix: Seq<usize>| #[trigger]
                model_decodes_to(sg, stv, ix) ==> if model_resumable(sg, ix) {
                    model_no_next_leaf(sg, ix)
                } else {
                    model_no_leaf(sg)
                }
        } else {
            model_no_leaf(sg)
        },
        None => model_no_leaf(sg),
    }
}

// ------------------------------------------------------------------
// The compact walk agrees with the model.
// ------------------------------------------------------------------

/// Every statement the walk proves about compact groups carries over
/// to the full sections they were built from.
proof fn lemma_bridge(sg: Seq<Seq<Section>>, gs: Seq<Group>)
    requires
        compacts_groups(sg, gs),
    ensures
        gs.len() == sg.len(),
        forall|l: Seq<usize>|
            #![trigger engine::valid_leaf(gs, l)]
            #![trigger model_valid_leaf(sg, l)]
            engine::valid_leaf(gs, l) == model_valid_leaf(sg, l),
        forall|st: Seq<ThinSection>, ix: Seq<usize>|
            #![trigger engine::decodes_to(gs, st, ix)]
            #![trigger model_decodes_to(sg, st, ix)]
            engine::decodes_to(gs, st, ix) == model_decodes_to(sg, st, ix),
        forall|st: Seq<ThinSection>|
            #![trigger engine::decodable(gs, st)]
            #![trigger model_decodable(sg, st)]
            engine::decodable(gs, st) == model_decodable(sg, st),
{
    assert forall|c: Seq<usize>, i: int, j: int|
        0 <= i < c.len() && 0 <= j < c.len() && i != j && c.len() <= sg.len()
            && engine::choice_in_range(gs, c, i) && engine::choice_in_range(gs, c, j) implies (
    #[trigger] engine::pair_free(gs, c, i, j)) == model_pair_free(sg, c, i, j) by {
        assert(compacts_group(sg[i], gs[i]));
        assert(compacts_group(sg[j], gs[j]));
        assert(compacts_section(sg[i][c[i] as int], gs[i].sections@[c[i] as int]));
        assert(compacts_section(sg[j][c[j] as int], gs[j].sections@[c[j] as int]));
        lemma_compact_sections_conflict(
            sg[i][c[i] as int],
            sg[j][c[j] as int],
            gs[i].sections@[c[i] as int],
            gs[j].sections@[c[j] as int],
        );
        assert(chosen(gs, c, i) == gs[i].sections@[c[i] as int]);
        assert(chosen(gs, c, j) == gs[j].sections@[c[j] as int]);
    }
    assert forall|c: Seq<usize>, i: int|
        0 <= i < c.len() && c.len() <= sg.len() implies (#[trigger] engine::choice_in_range(
        gs,
        c,
        i,
    )) == model_choice_in_range(sg, c, i) by {
        assert(compacts_group(sg[i], gs[i]));
    }
    assert forall|l: Seq<usize>|
        #![trigger engine::valid_leaf(gs, l)]
        #![trigger model_valid_leaf(sg, l)]
        engine::valid_leaf(gs, l) == model_valid_leaf(sg, l) by {
        if engine::valid_leaf(gs, l) {
            assert forall|i: int| 0 <= i < l.len() implies #[trigger] model_choice_in_range(
                sg,
                l,
                i,
            ) by {
                assert(engine::choice_in_range(gs, l, i));
            }
            assert forall|i: int, j: int| 0 <= i < j < l.len() implies #[trigger] model_pair_free(
                sg,
                l,
                i,
                j,
            ) by {
                assert(engine::pair_free(gs, l, i, j));
                assert(engine::choice_in_range(gs, l, i));
                assert(engine::choice_in_range(gs, l, j));
            }
        }
        if model_valid_leaf(sg, l) {
            assert forall|i: int| 0 <= i < l.len() implies #[trigger] engine::choice_in_range(
                gs,
                l,
                i,
            ) by {
                assert(model_choice_in_range(sg, l, i));
            }
            assert forall|i: int, j: int| 0 <= i < j < l.len() implies #[trigger] engine::pair_free(
                gs,
                l,
                i,
                j,
            ) by {
                assert(model_pair_free(sg, l, i, j));
                assert(model_choice_in_range(sg, l, i));
                assert(model_choice_in_range(sg, l, j));
                assert(engine::choice_in_range(gs, l, i));
                assert(engine::choice_in_range(gs, l, j));
            }
        }
    }
    assert forall|st: Seq<ThinSection>, ix: Seq<usize>|
        #![trigger engine::decodes_to(gs, st, ix)]
        #![trigger model_decodes_to(sg, st, ix)]
        engine::decodes_to(gs, st, ix) == model_decodes_to(sg, st, ix) by {
        if engine::decodes_to(gs, st, ix) {
            assert forall|i: int| 0 <= i < st.len() implies model_is_first_crn_index(
                sg[i],
                st[i].crn,
                #[trigger] ix[i],
            ) by {
                assert(engine::is_first_crn_index(gs[i].sections@, st[i].crn, ix[i]));
                assert(compacts_group(sg[i], gs[i]));
                assert forall|k: int| 0 <= k < ix[i] implies sg[i][k].crn != st[i].crn by {
                    assert(compacts_section(sg[i][k], gs[i].sections@[k]));
                }
                assert(compacts_section(sg[i][ix[i] as int], gs[i].sections@[ix[i] as int]));
            }
        }
        if model_decodes_to(sg, st, ix) {
            assert forall|i: int| 0 <= i < st.len() implies engine::is_first_crn_index(
                gs[i].sections@,
                st[i].crn,
                #[trigger] ix[i],
            ) by {
                assert(model_is_first_crn_index(sg[i], st[i].crn, ix[i]));
                assert(compacts_group(sg[i], gs[i]));
                assert forall|k: int| 0 <= k < ix[i] implies gs[i].sections@[k].crn != st[i].crn by {
                    assert(compacts_section(sg[i][k], gs[i].sections@[k]));
                }
                assert(compacts_section(sg[i][ix[i] as int], gs[i].sections@[ix[i] as int]));
            }
        }
    }
    assert forall|st: Seq<ThinSection>|
        #![trigger engine::decodable(gs, st)]
        #![trigger model_decodable(sg, st)]
        engine::decodable(gs, st) == model_decodable(sg, st) by {
        if engine::decodable(gs, st) {
            let ix = choose|ix: Seq<usize>| engine::decodes_to(gs, st, ix);
            assert(model_decodes_to(sg, st, ix));
        }
        if model_decodable(sg, st) {
            let ix = choose|ix: Seq<usize>| model_decodes_to(sg, st, ix);
            assert(engine::decodes_to(gs, st, ix));
        }
    }
}

/// For a cursor whose choices are in range, resumability agrees
/// between the compact walk and the model.
proof fn lemma_resumable_bridge(sg: Seq<Seq<Section>>, gs: Seq<Group>, ix: Seq<usize>)
    requires
        compacts_groups(sg, gs),
        ix.len() <= sg.len(),
        forall|i: int| 0 <= i < ix.len() ==> #[trigger] model_choice_in_range(sg, ix, i),
    ensures
        engine::resumable(gs, ix) == model_resumable(sg, ix),
{
    if engine::resumable(gs, ix) {
        assert forall|a: int, b: int| 0 <= a < b < ix.len() - 1 implies #[trigger] model_pair_free(
            sg,
            ix,
            a,
            b,
        ) by {
            assert(engine::pair_free(gs, ix, a, b));
            lemma_pair_free_bridge(sg, gs, ix, a, b);
        }
    }
    if model_resumable(sg, ix) {
        assert forall|a: int, b: int| 0 <= a < b < ix.len() - 1 implies #[trigger]
            engine::pair_free(gs, ix, a, b) by {
            assert(model_pair_free(sg, ix, a, b));
            lemma_pair_free_bridge(sg, gs, ix, a, b);
        }
    }
}

/// One conflict-free pair agrees between the compact walk and the
/// model, for in-range choices.
proof fn lemma_pair_free_bridge(
    sg: Seq<Seq<Section>>,
    gs: Seq<Group>,
    ix: Seq<usize>,
    a: int,
    b: int,
)
    requires
        compacts_groups(sg, gs),
        ix.len() <= sg.len(),
        0 <= a < ix.len(),
        0 <= b < ix.len(),
        model_choice_in_range(sg, ix, a),
        model_choice_in_range(sg, ix, b),
    ensures
        engine::pair_free(gs, ix, a, b) == model_pair_free(sg, ix, a, b),
{
    assert(compacts_group(sg[a], gs[a]));
    assert(compacts_group(sg[b], gs[b]));
    assert(compacts_section(sg[a][ix[a] as int], gs[a].sections@[ix[a] as int]));
    assert(compacts_section(sg[b][ix[b] as int], gs[b].sections@[ix[b] as int]));
    lemma_compact_sections_conflict(
        sg[a][ix[a] as int],
        sg[b][ix[b] as int],
        gs[a].sections@[ix[a] as int],
        gs[b].sections@[ix[b] as int],
    );
    assert(chosen(gs, ix, a) == gs[a].sections@[ix[a] as int]);
    assert(chosen(gs, ix, b) == gs[b].sections@[ix[b] as int]);
}

/// Agreement section by section keeps the conflict predicate.
proof fn lemma_sections_conflict_same(a: Section, a2: Section, b: Section, b2: Section)
    requires
        same_section(a, a2),
        same_section(b, b2),
    ensures
        sections_conflict(a, b) == sections_conflict(a2, b2),
{
    if sections_conflict(a, b) {
        let (i, j) = choose|i: int, j: int|
            0 <= i < a.meeting_times@.len() && 0 <= j < b.meeting_times@.len() && spec_conflicts(
                a.meeting_times@[i],
                b.meeting_times@[j],
            );
        assert(spec_conflicts(a2.meeting_times@[i], b2.meeting_times@[j]));
        assert(sections_conflict(a2, b2));
    }
    if sections_conflict(a2, b2) {
        let (i, j) = choose|i: int, j: int|
            0 <= i < a2.meeting_times@.len() && 0 <= j < b2.meeting_times@.len() && spec_conflicts(
                a2.meeting_times@[i],
                b2.meeting_times@[j],
            );
        assert(spec_conflicts(a.meeting_times@[i], b.meeting_times@[j]));
        assert(sections_conflict(a, b));
    }
}

/// Compacting sees through section-by-section agreement.
proof fn lemma_compacts_congruence(a: Seq<Seq<Section>>, b: Seq<Seq<Section>>, gs: Seq<Group>)
    requires
        same_groups(a, b),
        compacts_groups(a, gs),
    ensures
        compacts_groups(b, gs),
{
    assert forall|i: int| 0 <= i < b.len() implies #[trigger] compacts_group(b[i], gs[i]) by {
        assert(compacts_group(a[i], gs[i]));
        assert(same_sections(a[i], b[i]));
        assert forall|j: int| 0 <= j < b[i].len() implies #[trigger] compacts_section(
            b[i][j],
            gs[i].sections@[j],
        ) by {
            assert(compacts_section(a[i][j], gs[i].sections@[j]));
            assert(same_section(a[i][j], b[i][j]));
        }
    }
}

// ------------------------------------------------------------------
// Building and reading cursors against the built groups.
// ------------------------------------------------------------------

/// Reverses one group of sections in place, by moves.
fn reverse_sections(v: Vec<Section>) -> (r: Vec<Section>)
    ensures
        r@ == v@.reverse(),
{
    let ghost orig = v@;
    let mut v = v;
    let mut r: Vec<Section> = Vec::new();
    proof {
        assert(orig =~= v@ + r@.reverse());
    }
    while v.len() > 0
        invariant
            orig == v@ + r@.reverse(),
        decreases v@.len(),
    {
        let ghost v_old = v@;
        let ghost r_old = r@;
        let x = v.pop().unwrap();
        r.push(x);
        proof {
            assert(r@.reverse() =~= seq![x] + r_old.reverse());
            assert(v@ + (seq![x] + r_old.reverse()) =~= (v@ + seq![x]) + r_old.reverse());
            assert(v@ + seq![x] =~= v_old);
        }
    }
    proof {
        assert(orig =~= r@.reverse());
        assert(r@ =~= orig.reverse());
    }
    r
}

/// Reverses every group, the only accommodation for walking backward.
fn reverse_groups(v: Vec<Vec<Section>>) -> (r: Vec<Vec<Section>>)
    ensures
        group_views(r@).len() == group_views(v@).len(),
        forall|i: int|
            0 <= i < v@.len() ==> #[trigger] group_views(r@)[i] == group_views(v@)[i].reverse(),
{
    let ghost orig = v@;
    let mut v = v;
    let mut r: Vec<Vec<Section>> = Vec::new();
    while v.len() > 0
        invariant
            orig.len() == r@.len() + v@.len(),
            forall|i: int| 0 <= i < v@.len() ==> #[trigger] v@[i] == orig[r@.len() + i],
            forall|i: int| 0 <= i < r@.len() ==> #[trigger] r@[i]@ == orig[i]@.reverse(),
        decreases v@.len(),
    {
        let g = v.remove(0);
        r.push(reverse_sections(g));
    }
    proof {
        assert forall|i: int| 0 <= i < orig.len() implies #[trigger] group_views(r@)[i]
            == group_views(orig)[i].reverse() by {
            assert(r@[i]@ == orig[i]@.reverse());
        }
    }
    r
}

/// Collects the sections a full cursor picks, cloning one per group.
fn hydrate(sgv: &Vec<Vec<Section>>, leaf: &Vec<usize>) -> (r: Vec<Section>)
    requires
        leaf@.len() <= sgv@.len(),
        forall|i: int| 0 <= i < leaf@.len() ==> (leaf@[i] as int) < #[trigger] sgv@[i]@.len(),
    ensures
        same_sections(r@, picked(group_views(sgv@), leaf@)),
{
    let mut r: Vec<Section> = Vec::new();
    let mut i: usize = 0;
    while i < leaf.len()
        invariant
            i <= leaf@.len(),
            leaf@.len() <= sgv@.len(),
            forall|k: int| 0 <= k < leaf@.len() ==> (leaf@[k] as int) < #[trigger] sgv@[k]@.len(),
            r@.len() == i,
            forall|k: int|
                0 <= k < i ==> same_section(#[trigger] r@[k], sgv@[k]@[leaf@[k] as int]),
        decreases leaf@.len() - i,
    {
        r.push(sgv[i][leaf[i]].clone());
        i = i + 1;
    }
    proof {
        assert forall|k: int| 0 <= k < r@.len() implies #[trigger] same_section(
            r@[k],
            picked(group_views(sgv@), leaf@)[k],
        ) by {
            assert(picked(group_views(sgv@), leaf@)[k] == group_views(sgv@)[k][leaf@[k] as int]);
            assert(group_views(sgv@)[k] == sgv@[k]@);
        }
    }
    r
}

/// Advances the enumeration by one schedule: builds the groups for
/// the selected courses, decodes the optional previous position, and
/// returns the next pairwise conflict-free combination in a fixed
/// lexicographic order — or `None` when the walk is finished in this
/// direction, or no course is selected.
///
/// Passing `backward` walks the reversed groups, which enumerates the
/// mirrored tree; a stale or no-longer-conflict-free position restarts
/// the walk from its first leaf.
#[verifier::rlimit(100)]
pub fn next_schedule(courses: &[Course], state: Option<&[ThinSection]>, backward: bool) -> (r:
    Option<Vec<Section>>)
    ensures
        walk_groups_of(courses@, backward).len() == 0 ==> r is None,
        r matches Some(secs) ==> exists|l: Seq<usize>| #[trigger]
            model_valid_leaf(walk_groups_of(courses@, backward), l) && advance_spec(
                walk_groups_of(courses@, backward),
                state_view(state),
                l,
            ) && same_sections(secs@, picked(walk_groups_of(courses@, backward), l)),
        r matches Some(secs) ==> forall|i: int, j: int|
            0 <= i < j < secs@.len() ==> !sections_conflict(
                #[trigger] secs@[i],
                #[trigger] secs@[j],
            ),
        r is None && walk_groups_of(courses@, backward).len() > 0 ==> exhausted_spec(
            walk_groups_of(courses@, backward),
            state_view(state),
        ),
{
    let ghost sg0 = spec_partition(courses@);
    let ghost sg = walk_groups_of(courses@, backward);
    let mut section_groups = partition(courses);
    let ghost pre_views = group_views(section_groups@);
    if backward {
        section_groups = reverse_groups(section_groups);
    }
    proof {
        assert(same_groups(group_views(section_groups@), sg)) by {
            if backward {
                assert(group_views(section_groups@).len() == sg.len());
                assert forall|i: int| 0 <= i < sg.len() implies #[trigger] same_sections(
                    group_views(section_groups@)[i],
                    sg[i],
                ) by {
                    let nv = group_views(section_groups@)[i];
                    let x = pre_views[i];
                    let y = sg0[i];
                    assert(nv == x.reverse());
                    assert(same_sections(x, y));
                    assert(sg[i] == y.reverse());
                    assert(nv.len() == sg[i].len());
                    assert forall|k: int| 0 <= k < nv.len() implies #[trigger] same_section(
                        nv[k],
                        sg[i][k],
                    ) by {
                        assert(nv[k] == x[x.len() - 1 - k]);
                        assert(sg[i][k] == y[y.len() - 1 - k]);
                        assert(same_section(x[x.len() - 1 - k], y[x.len() - 1 - k]));
                    }
                }
            }
        }
    }
    let groups = Groups::new(&section_groups);
    proof {
        let built = group_views(section_groups@);
        lemma_compacts_congruence(built, sg, groups.groups@);
        lemma_spec_partition_nonempty(courses@);
        assert(engine::wf_groups(groups.groups@)) by {
            assert forall|i: int| 0 <= i < groups.groups@.len() implies #[trigger]
                groups.groups@[i].sections@.len() > 0 by {
                assert(compacts_group(sg[i], groups.groups@[i]));
                if backward {
                    assert(sg[i] == sg0[i].reverse());
                    assert(sg0[i].len() > 0);
                } else {
                    assert(sg[i].len() > 0);
                }
            }
        }
        lemma_bridge(sg, groups.groups@);
    }
    let next = find_next(&groups, state);
    let ghost gs = groups.groups@;
    match next {
        None => {
            proof {
                if sg.len() > 0 {
                    lemma_exhausted_transfer(sg, gs, state_view(state));
                }
            }
            None
        },
        Some(leaf) => {
            proof {
                assert(engine::valid_leaf(gs, leaf@));
                assert(model_valid_leaf(sg, leaf@));
                assert forall|i: int| 0 <= i < leaf@.len() implies (leaf@[i] as int)
                    < #[trigger] section_groups@[i]@.len() by {
                    assert(model_choice_in_range(sg, leaf@, i));
                    assert(same_sections(group_views(section_groups@)[i], sg[i]));
                    assert(group_views(section_groups@)[i] == section_groups@[i]@);
                }
            }
            let secs = hydrate(&section_groups, &leaf);
            proof {
                lemma_advance_transfer(sg, gs, state_view(state), leaf@);
                assert(advance_spec(sg, state_view(state), leaf@));
                let pk = picked(sg, leaf@);
                assert(same_sections(secs@, pk)) by {
                    let built = group_views(section_groups@);
                    assert forall|k: int| 0 <= k < secs@.len() implies #[trigger] same_section(
                        secs@[k],
                        pk[k],
                    ) by {
                        assert(same_section(secs@[k], picked(built, leaf@)[k]));
                        assert(picked(built, leaf@)[k] == built[k][leaf@[k] as int]);
                        assert(pk[k] == sg[k][leaf@[k] as int]);
                        assert(same_sections(built[k], sg[k]));
                        assert(same_section(built[k][leaf@[k] as int], sg[k][leaf@[k] as int]));
                    }
                }
                assert forall|i: int, j: int| 0 <= i < j < secs@.len() implies !sections_conflict(
                    #[trigger] secs@[i],
                    #[trigger] secs@[j],
                ) by {
                    assert(model_pair_free(sg, leaf@, i, j));
                    assert(same_section(secs@[i], pk[i]));
                    assert(same_section(secs@[j], pk[j]));
                    assert(pk[i] == sg[i][leaf@[i] as int]);
                    assert(pk[j] == sg[j][leaf@[j] as int]);
                    lemma_sections_conflict_same(
                        secs@[i],
                        sg[i][leaf@[i] as int],
                        secs@[j],
                        sg[j][leaf@[j] as int],
                    );
                }
                assert(exists|l: Seq<usize>| #[trigger]
                    model_valid_leaf(sg, l) && advance_spec(sg, state_view(state), l)
                        && same_sections(secs@, picked(sg, l))) by {
                    assert(model_valid_leaf(sg, leaf@) && advance_spec(sg, state_view(state), leaf@)
                        && same_sections(secs@, picked(sg, leaf@)));
                }
            }
            Some(secs)
        },
    }
}

/// The groups one request's walk runs over: the partition of the
/// selected courses, reversed group by group for a backward walk.
pub open spec fn walk_groups_of(courses: Seq<Course>, backward: bool) -> Seq<Seq<Section>> {
    if backward {
        reversed_groups(spec_partition(courses))
    } else {
        spec_partition(courses)
    }
}

/// The supplied position as the specification sees it.
pub open spec fn state_view(state: Option<&[ThinSection]>) -> Option<Seq<ThinSection>> {
    match state {
        Some(st) => Some(st@),
        None => None,
    }
}

/// Carries the walk's exhaustion verdict over to the model.
proof fn lemma_exhausted_transfer(sg: Seq<Seq<Section>>, gs: Seq<Group>, stv: Option<Seq<ThinSection>>)
    requires
        compacts_groups(sg, gs),
        sg.len() > 0,
        match stv {
            None => engine::no_leaf(gs),
            Some(st) => if engine::decodable(gs, st) {
                forall|ix: Seq<usize>| #[trigger]
                    engine::decodes_to(gs, st, ix) ==> if engine::resumable(gs, ix) {
                        engine::no_next_leaf(gs, ix)
                    } else {
                        engine::no_leaf(gs)
                    }
            } else {
                engine::no_leaf(gs)
            },
        },
    ensures
        exhausted_spec(sg, stv),
{
    lemma_bridge(sg, gs);
    match stv {
        None => {
            lemma_no_leaf_transfer(sg, gs);
        },
        Some(st) => {
            if model_decodable(sg, st) {
                assert forall|ix: Seq<usize>| #[trigger]
                    model_decodes_to(sg, st, ix) implies (if model_resumable(sg, ix) {
                    model_no_next_leaf(sg, ix)
                } else {
                    model_no_leaf(sg)
                }) by {
                    assert(engine::decodes_to(gs, st, ix));
                    lemma_ix_in_range(sg, st, ix);
                    lemma_resumable_bridge(sg, gs, ix);
                    if model_resumable(sg, ix) {
                        assert(engine::no_next_leaf(gs, ix));
                        assert forall|l2: Seq<usize>| #[trigger]
                            model_valid_leaf(sg, l2) implies !lex_lt(ix, l2) by {
                            assert(engine::valid_leaf(gs, l2));
                        }
                    } else {
                        assert(engine::no_leaf(gs));
                        lemma_no_leaf_transfer(sg, gs);
                    }
                }
            } else {
                lemma_no_leaf_transfer(sg, gs);
            }
        },
    }
}

/// A cursor that decodes is in range at every depth.
proof fn lemma_ix_in_range(sg: Seq<Seq<Section>>, st: Seq<ThinSection>, ix: Seq<usize>)
    requires
        model_decodes_to(sg, st, ix),
    ensures
        ix.len() <= sg.len(),
        forall|i: int| 0 <= i < ix.len() ==> #[trigger] model_choice_in_range(sg, ix, i),
{
    assert forall|i: int| 0 <= i < ix.len() implies #[trigger] model_choice_in_range(
        sg,
        ix,
        i,
    ) by {
        assert(model_is_first_crn_index(sg[i], st[i].crn, ix[i]));
    }
}

/// An empty pruned tree in the walk is empty in the model.
proof fn lemma_no_leaf_transfer(sg: Seq<Seq<Section>>, gs: Seq<Group>)
    requires
        compacts_groups(sg, gs),
        engine::no_leaf(gs),
    ensures
        model_no_leaf(sg),
{
    lemma_bridge(sg, gs);
    assert forall|l2: Seq<usize>| !model_valid_leaf(sg, l2) by {
        if model_valid_leaf(sg, l2) {
            assert(engine::valid_leaf(gs, l2));
        }
    }
}

/// Carries the walk's returned leaf over to the model.
proof fn lemma_advance_transfer(
    sg: Seq<Seq<Section>>,
    gs: Seq<Group>,
    stv: Option<Seq<ThinSection>>,
    l: Seq<usize>,
)
    requires
        compacts_groups(sg, gs),
        match stv {
            None => engine::is_first_leaf(gs, l),
            Some(st) => if engine::decodable(gs, st) {
                forall|ix: Seq<usize>| #[trigger]
                    engine::decodes_to(gs, st, ix) ==> if engine::resumable(gs, ix) {
                        engine::is_next_leaf(gs, ix, l)
                    } else {
                        engine::is_first_leaf(gs, l)
                    }
            } else {
                engine::is_first_leaf(gs, l)
            },
        },
    ensures
        advance_spec(sg, stv, l),
{
    lemma_bridge(sg, gs);
    match stv {
        None => {
            lemma_first_leaf_transfer(sg, gs, l);
        },
        Some(st) => {
            if model_decodable(sg, st) {
                assert forall|ix: Seq<usize>| #[trigger]
                    model_decodes_to(sg, st, ix) implies (if model_resumable(sg, ix) {
                    model_is_next_leaf(sg, ix, l)
                } else {
                    model_is_first_leaf(sg, l)
                }) by {
                    assert(engine::decodes_to(gs, st, ix));
                    lemma_ix_in_range(sg, st, ix);
                    lemma_resumable_bridge(sg, gs, ix);
                    if model_resumable(sg, ix) {
                        assert(engine::is_next_leaf(gs, ix, l));
                        assert(model_valid_leaf(sg, l));
                        assert forall|l2: Seq<usize>| #[trigger]
                            model_valid_leaf(sg, l2) && lex_lt(ix, l2) implies lex_le(l, l2) by {
                            assert(engine::valid_leaf(gs, l2));
                        }
                    } else {
                        assert(engine::is_first_leaf(gs, l));
                        lemma_first_leaf_transfer(sg, gs, l);
                    }
                }
            } else {
                lemma_first_leaf_transfer(sg, gs, l);
            }
        },
    }
}

/// A first leaf of the walk is a first leaf of the model.
proof fn lemma_first_leaf_transfer(sg: Seq<Seq<Section>>, gs: Seq<Group>, l: Seq<usize>)
    requires
        compacts_groups(sg, gs),
        engine::is_first_leaf(gs, l),
    ensures
        model_is_first_leaf(sg, l),
{
    lemma_bridge(sg, gs);
    assert(model_valid_leaf(sg, l));
    assert forall|l2: Seq<usize>| #[trigger] model_valid_leaf(sg, l2) implies lex_le(l, l2) by {
        assert(engine::valid_leaf(gs, l2));
    }
}

} // verus!
