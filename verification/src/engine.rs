//! The enumeration engine: compact meeting data, groups of
//! interchangeable sections, and the backtracking walk itself.

use vstd::prelude::*;

use crate::conflict::dates_overlap;
use crate::conflict::has_window;
use crate::conflict::spec_conflicts;
use crate::conflict::windows_overlap;
use crate::course;
use crate::time::Date;
use crate::time::Days;
use crate::time::TimeOfDay;
use crate::course::ThinSection;
use crate::cursor::at_or_beyond;
use crate::cursor::lemma_at_or_beyond_start;
use crate::cursor::lemma_lex_push_le;
use crate::cursor::lemma_lex_push_lt;
use crate::cursor::lex_le;
use crate::cursor::lex_lt;
use crate::time::days_overlap;

verus! {

/// The weekday set packed into one bit per day, Monday lowest.
pub open spec fn day_mask(d: Days) -> u8 {
    ((if d.monday {
        1int
    } else {
        0int
    }) + (if d.tuesday {
        2int
    } else {
        0int
    }) + (if d.wednesday {
        4int
    } else {
        0int
    }) + (if d.thursday {
        8int
    } else {
        0int
    }) + (if d.friday {
        16int
    } else {
        0int
    }) + (if d.saturday {
        32int
    } else {
        0int
    }) + (if d.sunday {
        64int
    } else {
        0int
    })) as u8
}

/// A meeting time normalized for cheap comparison: the weekday set is a
/// bitmask and only what the conflict test reads is kept.
#[derive(Clone, Copy, PartialEq, Eq, Structural, Debug)]
pub struct MeetingTime {
    pub start_time: Option<TimeOfDay>,
    pub end_time: Option<TimeOfDay>,
    pub start_date: Date,
    pub end_date: Date,
    pub days: u8,
}

/// The compact form of a full meeting time.
pub open spec fn compact_of(t: course::MeetingTime) -> MeetingTime {
    MeetingTime {
        start_time: t.start_time,
        end_time: t.end_time,
        start_date: t.start_date,
        end_date: t.end_date,
        days: day_mask(t.days),
    }
}

impl MeetingTime {
    /// Normalizes one meeting time, packing its weekday set into a mask.
    pub fn new(t: &course::MeetingTime) -> (r: MeetingTime)
        ensures
            r == compact_of(*t),
    {
        let mut day_mask: u8 = 0;
        if t.days.monday {
            day_mask = day_mask + 1;
        }
        if t.days.tuesday {
            day_mask = day_mask + 2;
        }
        if t.days.wednesday {
            day_mask = day_mask + 4;
        }
        if t.days.thursday {
            day_mask = day_mask + 8;
        }
        if t.days.friday {
            day_mask = day_mask + 16;
        }
        if t.days.saturday {
            day_mask = day_mask + 32;
        }
        if t.days.sunday {
            day_mask = day_mask + 64;
        }
        MeetingTime {
            start_time: t.start_time,
            end_time: t.end_time,
            start_date: t.start_date,
            end_date: t.end_date,
            days: day_mask,
        }
    }
}

/// The conflict predicate on compact meeting times; the weekday test is
/// one bitwise intersection.
pub open spec fn compact_conflicts(a: MeetingTime, b: MeetingTime) -> bool {
    &&& dates_overlap(a.start_date, a.end_date, b.start_date, b.end_date)
    &&& (a.days & b.days) != 0
    &&& has_window(a.start_time, a.end_time)
    &&& has_window(b.start_time, b.end_time)
    &&& windows_overlap(
        a.start_time->Some_0,
        a.end_time->Some_0,
        b.start_time->Some_0,
        b.end_time->Some_0,
    )
}

/// Decides the conflict predicate on compact meeting times.
pub fn meeting_conflict(a: &MeetingTime, b: &MeetingTime) -> (r: bool)
    ensures
        r == compact_conflicts(*a, *b),
{
    if a.end_date.lt(b.start_date) || b.end_date.lt(a.start_date) {
        return false;
    }
    if (a.days & b.days) == 0 {
        return false;
    }
    match (a.start_time, a.end_time, b.start_time, b.end_time) {
        (Some(a_start), Some(a_end), Some(b_start), Some(b_end)) => {
            !(a_end.minutes() < b_start.minutes() || b_end.minutes() < a_start.minutes())
        },
        _ => false,
    }
}

/// Two packed weekday masks intersect exactly when the weekday sets
/// they came from share a day.
pub proof fn lemma_day_mask_overlap(x: Days, y: Days)
    ensures
        ((day_mask(x) & day_mask(y)) != 0) == days_overlap(x, y),
{
    let a0: u8 = if x.monday { 1 } else { 0 };
    let a1: u8 = if x.tuesday { 1 } else { 0 };
    let a2: u8 = if x.wednesday { 1 } else { 0 };
    let a3: u8 = if x.thursday { 1 } else { 0 };
    let a4: u8 = if x.friday { 1 } else { 0 };
    let a5: u8 = if x.saturday { 1 } else { 0 };
    let a6: u8 = if x.sunday { 1 } else { 0 };
    let b0: u8 = if y.monday { 1 } else { 0 };
    let b1: u8 = if y.tuesday { 1 } else { 0 };
    let b2: u8 = if y.wednesday { 1 } else { 0 };
    let b3: u8 = if y.thursday { 1 } else { 0 };
    let b4: u8 = if y.friday { 1 } else { 0 };
    let b5: u8 = if y.saturday { 1 } else { 0 };
    let b6: u8 = if y.sunday { 1 } else { 0 };
    let ma = day_mask(x);
    let mb = day_mask(y);
    assert(ma == a0 + 2 * a1 + 4 * a2 + 8 * a3 + 16 * a4 + 32 * a5 + 64 * a6);
    assert(mb == b0 + 2 * b1 + 4 * b2 + 8 * b3 + 16 * b4 + 32 * b5 + 64 * b6);
    assert(((ma & mb) != 0) == ((a0 == 1 && b0 == 1) || (a1 == 1 && b1 == 1) || (a2 == 1 && b2
        == 1) || (a3 == 1 && b3 == 1) || (a4 == 1 && b4 == 1) || (a5 == 1 && b5 == 1) || (a6 == 1
        && b6 == 1))) by (bit_vector)
        requires
            ma == a0 + 2 * a1 + 4 * a2 + 8 * a3 + 16 * a4 + 32 * a5 + 64 * a6,
            mb == b0 + 2 * b1 + 4 * b2 + 8 * b3 + 16 * b4 + 32 * b5 + 64 * b6,
            a0 <= 1 && a1 <= 1 && a2 <= 1 && a3 <= 1 && a4 <= 1 && a5 <= 1 && a6 <= 1,
            b0 <= 1 && b1 <= 1 && b2 <= 1 && b3 <= 1 && b4 <= 1 && b5 <= 1 && b6 <= 1,
    ;
}

/// Normalizing preserves the conflict predicate: compact meetings
/// conflict exactly when the meetings they came from do.
pub proof fn lemma_compact_conflicts(a: course::MeetingTime, b: course::MeetingTime)
    ensures
        compact_conflicts(compact_of(a), compact_of(b)) == spec_conflicts(a, b),
{
    lemma_day_mask_overlap(a.days, b.days);
}

/// A section reduced to what the walk needs: its identity and its
/// normalized meeting times.
#[derive(Debug)]
pub struct Section {
    pub crn: u64,
    pub times: Vec<MeetingTime>,
}

/// Whether `t` is the compact form of the full section `s`.
pub open spec fn compacts_section(s: course::Section, t: Section) -> bool {
    t.crn == s.crn && t.times@ == s.meeting_times@.map_values(|m: course::MeetingTime| compact_of(m))
}

impl Section {
    /// Normalizes one full section.
    pub fn new(s: &course::Section) -> (r: Section)
        ensures
            compacts_section(*s, r),
    {
        let ghost spec_times = s.meeting_times@.map_values(
            |m: course::MeetingTime| compact_of(m),
        );
        let mut times: Vec<MeetingTime> = Vec::new();
        let mut i: usize = 0;
        while i < s.meeting_times.len()
            invariant
                i <= s.meeting_times.len(),
                spec_times == s.meeting_times@.map_values(
                    |m: course::MeetingTime| compact_of(m),
                ),
                times@ =~= spec_times.subrange(0, i as int),
            decreases s.meeting_times.len() - i,
        {
            times.push(MeetingTime::new(&s.meeting_times[i]));
            i = i + 1;
        }
        proof {
            assert(times@ =~= spec_times);
        }
        Section { crn: s.crn, times }
    }
}

/// Whether any meeting of one compact list conflicts with any meeting
/// of the other.
pub open spec fn compact_lists_conflict(x: Seq<MeetingTime>, y: Seq<MeetingTime>) -> bool {
    exists|i: int, j: int|
        0 <= i < x.len() && 0 <= j < y.len() && compact_conflicts(x[i], y[j])
}

/// Whether any meeting of one full section conflicts with any meeting
/// of the other: the component-level conflict predicate.
pub open spec fn sections_conflict(a: course::Section, b: course::Section) -> bool {
    exists|i: int, j: int|
        0 <= i < a.meeting_times@.len() && 0 <= j < b.meeting_times@.len() && spec_conflicts(
            a.meeting_times@[i],
            b.meeting_times@[j],
        )
}

/// Compact sections conflict exactly when the full sections they came
/// from do.
pub proof fn lemma_compact_sections_conflict(a: course::Section, b: course::Section, ca: Section, cb: Section)
    requires
        compacts_section(a, ca),
        compacts_section(b, cb),
    ensures
        compact_lists_conflict(ca.times@, cb.times@) == sections_conflict(a, b),
{
    if compact_lists_conflict(ca.times@, cb.times@) {
        let (i, j) = choose|i: int, j: int|
            0 <= i < ca.times@.len() && 0 <= j < cb.times@.len() && compact_conflicts(
                ca.times@[i],
                cb.times@[j],
            );
        lemma_compact_conflicts(a.meeting_times@[i], b.meeting_times@[j]);
        assert(sections_conflict(a, b));
    }
    if sections_conflict(a, b) {
        let (i, j) = choose|i: int, j: int|
            0 <= i < a.meeting_times@.len() && 0 <= j < b.meeting_times@.len() && spec_conflicts(
                a.meeting_times@[i],
                b.meeting_times@[j],
            );
        lemma_compact_conflicts(a.meeting_times@[i], b.meeting_times@[j]);
        assert(compact_conflicts(ca.times@[i], cb.times@[j]));
        assert(compact_lists_conflict(ca.times@, cb.times@));
    }
}

/// Decides whether two compact sections conflict: any meeting of one
/// against any meeting of the other.
pub fn section_conflict(a: &Section, b: &Section) -> (r: bool)
    ensures
        r == compact_lists_conflict(a.times@, b.times@),
{
    let mut i: usize = 0;
    while i < a.times.len()
        invariant
            i <= a.times.len(),
            !exists|p: int, q: int|
                0 <= p < i && 0 <= q < b.times@.len() && compact_conflicts(
                    a.times@[p],
                    b.times@[q],
                ),
        decreases a.times.len() - i,
    {
        let mut j: usize = 0;
        while j < b.times.len()
            invariant
                i < a.times.len(),
                j <= b.times.len(),
                !exists|q: int| 0 <= q < j && compact_conflicts(a.times@[i as int], b.times@[q]),
            decreases b.times.len() - j,
        {
            if meeting_conflict(&a.times[i], &b.times[j]) {
                return true;
            }
            j = j + 1;
        }
        i = i + 1;
    }
    false
}

/// One group of interchangeable sections for a single course slot.
#[derive(Debug)]
pub struct Group {
    pub sections: Vec<Section>,
}

/// Whether `g` is the compact form of the full section list `src`.
pub open spec fn compacts_group(src: Seq<course::Section>, g: Group) -> bool {
    g.sections@.len() == src.len() && forall|j: int|
        0 <= j < src.len() ==> #[trigger] compacts_section(src[j], g.sections@[j])
}

impl Group {
    /// Normalizes one group of full sections.
    pub fn new(sections: &Vec<course::Section>) -> (r: Group)
        ensures
            compacts_group(sections@, r),
    {
        let mut out: Vec<Section> = Vec::new();
        let mut i: usize = 0;
        while i < sections.len()
            invariant
                i <= sections.len(),
                out@.len() == i,
                forall|j: int|
                    0 <= j < i ==> #[trigger] compacts_section(sections@[j], out@[j]),
            decreases sections.len() - i,
        {
            out.push(Section::new(&sections[i]));
            i = i + 1;
        }
        Group { sections: out }
    }
}

/// The ordered list of groups for one enumeration request.
#[derive(Debug)]
pub struct Groups {
    pub groups: Vec<Group>,
}

/// Whether `gs` is the compact form of the partitioned section lists
/// `src`, group by group.
pub open spec fn compacts_groups(src: Seq<Seq<course::Section>>, gs: Seq<Group>) -> bool {
    gs.len() == src.len() && forall|i: int|
        0 <= i < src.len() ==> #[trigger] compacts_group(src[i], gs[i])
}

/// Every group holds at least one section; the walk requires it.
pub open spec fn wf_groups(gs: Seq<Group>) -> bool {
    forall|i: int| 0 <= i < gs.len() ==> #[trigger] gs[i].sections@.len() > 0
}

impl Groups {
    /// Normalizes a full partition into compact groups.
    pub fn new(groups: &Vec<Vec<course::Section>>) -> (r: Groups)
        ensures
            compacts_groups(groups@.map_values(|g: Vec<course::Section>| g@), r.groups@),
    {
        let mut out: Vec<Group> = Vec::new();
        let mut i: usize = 0;
        while i < groups.len()
            invariant
                i <= groups.len(),
                out@.len() == i,
                forall|j: int| 0 <= j < i ==> #[trigger] compacts_group(groups@[j]@, out@[j]),
            decreases groups.len() - i,
        {
            out.push(Group::new(&groups[i]));
            i = i + 1;
        }
        let r = Groups { groups: out };
        proof {
            let src = groups@.map_values(|g: Vec<course::Section>| g@);
            assert forall|j: int| 0 <= j < src.len() implies #[trigger] compacts_group(
                src[j],
                r.groups@[j],
            ) by {
                assert(src[j] == groups@[j]@);
            }
        }
        r
    }
}

// ------------------------------------------------------------------
// Cursors against groups: which full cursors name a schedule.
// ------------------------------------------------------------------

/// The compact section chosen at depth `i` by cursor `c`.
pub open spec fn chosen(gs: Seq<Group>, c: Seq<usize>, i: int) -> Section {
    gs[i].sections@[c[i] as int]
}

/// The index chosen at depth `i` names a section of group `i`.
pub open spec fn choice_in_range(gs: Seq<Group>, c: Seq<usize>, i: int) -> bool {
    (c[i] as int) < gs[i].sections@.len()
}

/// The sections chosen at depths `i` and `j` do not conflict.
pub open spec fn pair_free(gs: Seq<Group>, c: Seq<usize>, i: int, j: int) -> bool {
    !compact_lists_conflict(chosen(gs, c, i).times@, chosen(gs, c, j).times@)
}

/// A conflict-free partial path: every index in range, every chosen
/// pair compatible. The walk maintains this for all committed depths.
pub open spec fn prefix_ok(gs: Seq<Group>, c: Seq<usize>) -> bool {
    &&& c.len() <= gs.len()
    &&& (forall|i: int| 0 <= i < c.len() ==> #[trigger] choice_in_range(gs, c, i))
    &&& (forall|i: int, j: int| 0 <= i < j < c.len() ==> #[trigger] pair_free(gs, c, i, j))
}

/// A cursor naming one in-range section per group.
pub open spec fn full_in_range(gs: Seq<Group>, c: Seq<usize>) -> bool {
    c.len() == gs.len() && (forall|i: int| 0 <= i < c.len() ==> #[trigger] choice_in_range(gs, c, i))
}

/// A leaf: one in-range section per group, pairwise conflict-free.
pub open spec fn valid_leaf(gs: Seq<Group>, c: Seq<usize>) -> bool {
    c.len() == gs.len() && prefix_ok(gs, c)
}

/// A shorter conflict-free path stays conflict-free.
pub proof fn lemma_prefix_ok_restrict(gs: Seq<Group>, c: Seq<usize>, k: int)
    requires
        prefix_ok(gs, c),
        0 <= k <= c.len(),
    ensures
        prefix_ok(gs, c.subrange(0, k)),
{
    let s = c.subrange(0, k);
    assert forall|i: int| 0 <= i < s.len() implies #[trigger] choice_in_range(gs, s, i) by {
        assert(choice_in_range(gs, c, i));
    }
    assert forall|i: int, j: int| 0 <= i < j < s.len() implies #[trigger] pair_free(gs, s, i, j) by {
        assert(pair_free(gs, c, i, j));
    }
}

/// The first leaf of the pruned tree in cursor order.
pub open spec fn is_first_leaf(gs: Seq<Group>, l: Seq<usize>) -> bool {
    valid_leaf(gs, l) && (forall|l2: Seq<usize>| #[trigger] valid_leaf(gs, l2) ==> lex_le(l, l2))
}

/// The pruned tree has no leaf at all.
pub open spec fn no_leaf(gs: Seq<Group>) -> bool {
    forall|l2: Seq<usize>| !valid_leaf(gs, l2)
}

/// The first leaf strictly after the leaf `p` in cursor order.
pub open spec fn is_next_leaf(gs: Seq<Group>, p: Seq<usize>, l: Seq<usize>) -> bool {
    &&& valid_leaf(gs, l)
    &&& lex_lt(p, l)
    &&& (forall|l2: Seq<usize>| #[trigger] valid_leaf(gs, l2) && lex_lt(p, l2) ==> lex_le(l, l2))
}

/// No leaf lies strictly after the leaf `p` in cursor order.
pub open spec fn no_next_leaf(gs: Seq<Group>, p: Seq<usize>) -> bool {
    forall|l2: Seq<usize>| #[trigger] valid_leaf(gs, l2) ==> !lex_lt(p, l2)
}

// ------------------------------------------------------------------
// The external-position codec.
// ------------------------------------------------------------------

/// `j` is the first index within `secs` whose section carries `crn`.
pub open spec fn is_first_crn_index(secs: Seq<Section>, crn: u64, j: usize) -> bool {
    &&& (j as int) < secs.len()
    &&& secs[j as int].crn == crn
    &&& (forall|k: int| 0 <= k < j ==> secs[k].crn != crn)
}

/// The external position `st` decodes to the cursor `ix` against the
/// current groups, identifier by identifier.
pub open spec fn decodes_to(gs: Seq<Group>, st: Seq<ThinSection>, ix: Seq<usize>) -> bool {
    &&& ix.len() == st.len()
    &&& st.len() == gs.len()
    &&& (forall|i: int|
        0 <= i < st.len() ==> is_first_crn_index(gs[i].sections@, st[i].crn, #[trigger] ix[i]))
}

/// The external position still matches the current groups: it has
/// their shape and every identifier resolves. A stale position fails
/// this.
pub open spec fn decodable(gs: Seq<Group>, st: Seq<ThinSection>) -> bool {
    exists|ix: Seq<usize>| decodes_to(gs, st, ix)
}

/// A position that decodes at all is decodable.
pub proof fn lemma_decodes_implies_decodable(gs: Seq<Group>, st: Seq<ThinSection>, ix: Seq<usize>)
    requires
        decodes_to(gs, st, ix),
    ensures
        decodable(gs, st),
{
    assert(exists|ix2: Seq<usize>| decodes_to(gs, st, ix2)) by {
        assert(decodes_to(gs, st, ix));
    }
}

/// An external position decodes to at most one cursor.
pub proof fn lemma_decode_unique(gs: Seq<Group>, st: Seq<ThinSection>, a: Seq<usize>, b: Seq<usize>)
    requires
        decodes_to(gs, st, a),
        decodes_to(gs, st, b),
    ensures
        a == b,
{
    assert forall|i: int| 0 <= i < a.len() implies a[i] == b[i] by {
        assert(is_first_crn_index(gs[i].sections@, st[i].crn, a[i]));
        assert(is_first_crn_index(gs[i].sections@, st[i].crn, b[i]));
        if (a[i] as int) < (b[i] as int) {
            assert(gs[i].sections@[a[i] as int].crn != st[i].crn);
        }
        if (b[i] as int) < (a[i] as int) {
            assert(gs[i].sections@[b[i] as int].crn != st[i].crn);
        }
    }
    assert(a =~= b);
}

/// Decodes an external position against the current groups: the index
/// of each identifier within its group, or `None` when the position is
/// stale — wrong length, or an identifier that no longer appears.
pub fn decode(groups: &Groups, st: &[ThinSection]) -> (r: Option<Vec<usize>>)
    ensures
        match r {
            Some(ix) => decodes_to(groups.groups@, st@, ix@),
            None => !decodable(groups.groups@, st@),
        },
{
    let ghost gs = groups.groups@;
    if st.len() != groups.groups.len() {
        proof {
            if decodable(gs, st@) {
                let ix = choose|ix: Seq<usize>| decodes_to(gs, st@, ix);
                assert(false);
            }
        }
        return None;
    }
    let mut ix: Vec<usize> = Vec::new();
    let mut i: usize = 0;
    while i < st.len()
        invariant
            gs == groups.groups@,
            st@.len() == gs.len(),
            i <= st@.len(),
            ix@.len() == i,
            forall|p: int|
                0 <= p < i ==> is_first_crn_index(gs[p].sections@, st@[p].crn, #[trigger] ix@[p]),
        decreases st@.len() - i,
    {
        let row = &groups.groups[i];
        let crn = st[i].crn;
        let mut j: usize = 0;
        while j < row.sections.len() && row.sections[j].crn != crn
            invariant
                row == groups.groups@[i as int],
                j <= row.sections@.len(),
                forall|k: int| 0 <= k < j ==> row.sections@[k].crn != crn,
            decreases row.sections@.len() - j,
        {
            j = j + 1;
        }
        if j < row.sections.len() {
            ix.push(j);
        } else {
            proof {
                assert(!decodable(gs, st@)) by {
                    if decodable(gs, st@) {
                        let dx = choose|dx: Seq<usize>| decodes_to(gs, st@, dx);
                        assert(is_first_crn_index(
                            gs[i as int].sections@,
                            st@[i as int].crn,
                            dx[i as int],
                        ));
                        assert(gs[i as int].sections@[dx[i as int] as int].crn != crn);
                        assert(false);
                    }
                }
            }
            return None;
        }
        i = i + 1;
    }
    Some(ix)
}

// ------------------------------------------------------------------
// Termination of the walk.
// ------------------------------------------------------------------

/// The walk's state between steps: at least one entry, a committed
/// conflict-free prefix, and a trial index at the top that is at most
/// one past its group's last section.
pub open spec fn walk_state_ok(gs: Seq<Group>, s: Seq<usize>) -> bool {
    &&& 1 <= s.len() <= gs.len()
    &&& prefix_ok(gs, s.subrange(0, s.len() - 1))
    &&& (s[s.len() - 1] as int) <= gs[s.len() - 1].sections@.len()
}

/// The number of index combinations over groups `from` onward.
pub open spec fn prod_sizes(gs: Seq<Group>, from: int) -> int
    decreases gs.len() - from,
{
    if from < 0 || from >= gs.len() {
        1
    } else {
        gs[from].sections@.len() * prod_sizes(gs, from + 1)
    }
}

/// The mixed-radix value of the cursor digits at depth `d` and below.
pub open spec fn cursor_value_from(gs: Seq<Group>, s: Seq<usize>, d: int) -> int
    decreases s.len() - d,
{
    if d < 0 || d >= s.len() {
        0
    } else {
        s[d] * prod_sizes(gs, d + 1) + cursor_value_from(gs, s, d + 1)
    }
}

/// With no empty group, every combination count is at least one.
pub proof fn lemma_prod_sizes_pos(gs: Seq<Group>, from: int)
    requires
        wf_groups(gs),
    ensures
        prod_sizes(gs, from) >= 1,
    decreases gs.len() - from,
{
    if 0 <= from && from < gs.len() {
        lemma_prod_sizes_pos(gs, from + 1);
        let a = gs[from].sections@.len() as int;
        let b = prod_sizes(gs, from + 1);
        assert(a * b >= 1) by (nonlinear_arith)
            requires
                a >= 1,
                b >= 1,
        ;
    }
}

/// Cursor values are never negative.
pub proof fn lemma_cursor_value_nonneg(gs: Seq<Group>, s: Seq<usize>, d: int)
    requires
        wf_groups(gs),
    ensures
        cursor_value_from(gs, s, d) >= 0,
    decreases s.len() - d,
{
    if 0 <= d && d < s.len() {
        lemma_cursor_value_nonneg(gs, s, d + 1);
        lemma_prod_sizes_pos(gs, d + 1);
        let x = s[d] as int;
        let p = prod_sizes(gs, d + 1);
        assert(x * p >= 0) by (nonlinear_arith)
            requires
                x >= 0,
                p >= 1,
        ;
    }
}

/// A walk state's value never exceeds the combination count from its
/// depth: digits below the top are in range and the top is at most
/// one past the end.
pub proof fn lemma_cursor_value_le_prod(gs: Seq<Group>, s: Seq<usize>, d: int)
    requires
        wf_groups(gs),
        0 <= d <= s.len(),
        s.len() <= gs.len(),
        forall|i: int| 0 <= i < s.len() - 1 ==> (s[i] as int) < gs[i].sections@.len(),
        s.len() > 0 ==> (s[s.len() - 1] as int) <= gs[s.len() - 1].sections@.len(),
    ensures
        cursor_value_from(gs, s, d) <= prod_sizes(gs, d),
    decreases s.len() - d,
{
    lemma_prod_sizes_pos(gs, d);
    if d < s.len() {
        let x = s[d] as int;
        let p = prod_sizes(gs, d + 1);
        let size = gs[d].sections@.len() as int;
        lemma_prod_sizes_pos(gs, d + 1);
        if d == s.len() - 1 {
            assert(cursor_value_from(gs, s, d + 1) == 0);
            assert(x * p <= size * p) by (nonlinear_arith)
                requires
                    x <= size,
                    p >= 0,
            ;
        } else {
            lemma_cursor_value_le_prod(gs, s, d + 1);
            assert(x * p <= (size - 1) * p) by (nonlinear_arith)
                requires
                    x <= size - 1,
                    p >= 0,
            ;
            assert((size - 1) * p + p == size * p) by (nonlinear_arith);
        }
        assert(prod_sizes(gs, d) == size * p);
    }
}

/// Appending a digit adds its weighted value.
pub proof fn lemma_cursor_value_push(gs: Seq<Group>, s: Seq<usize>, x: usize, d: int)
    requires
        0 <= d <= s.len(),
    ensures
        cursor_value_from(gs, s.push(x), d) == cursor_value_from(gs, s, d) + x * prod_sizes(
            gs,
            s.len() as int + 1,
        ),
    decreases s.len() - d,
{
    let s2 = s.push(x);
    if d == s.len() {
        assert(s2[d] == x);
        assert(cursor_value_from(gs, s2, d + 1) == 0);
        assert(cursor_value_from(gs, s, d) == 0);
    } else {
        lemma_cursor_value_push(gs, s, x, d + 1);
        assert(s2[d] == s[d]);
    }
}

/// Whether the trial index at the top of the state has run past its
/// group: the walk can only backtrack from such a state.
pub open spec fn top_exhausted(gs: Seq<Group>, s: Seq<usize>) -> bool {
    (s[s.len() - 1] as int) >= gs[s.len() - 1].sections@.len()
}

/// The walk's termination measure: how much of the search space lies
/// at or beyond the state, dominated by the state's mixed-radix value,
/// with the state's depth breaking ties between backtracking and
/// descending at one value.
pub open spec fn walk_measure(gs: Seq<Group>, s: Seq<usize>) -> int {
    let n = gs.len() as int;
    (2 * n + 2) * (prod_sizes(gs, 0) - cursor_value_from(gs, s, 0)) + (if top_exhausted(gs, s) {
        n + 1 + s.len()
    } else {
        n - s.len()
    })
}

/// The measure is never negative on a well-formed walk state.
pub proof fn lemma_walk_measure_nonneg(gs: Seq<Group>, s: Seq<usize>)
    requires
        wf_groups(gs),
        walk_state_ok(gs, s),
    ensures
        walk_measure(gs, s) >= 0,
{
    let n = gs.len() as int;
    let p = s.subrange(0, s.len() - 1);
    assert forall|i: int| 0 <= i < s.len() - 1 implies (s[i] as int) < gs[i].sections@.len() by {
        assert(choice_in_range(gs, p, i));
    }
    lemma_cursor_value_le_prod(gs, s, 0);
    let gap = prod_sizes(gs, 0) - cursor_value_from(gs, s, 0);
    assert((2 * n + 2) * gap >= 0) by (nonlinear_arith)
        requires
            gap >= 0,
            n >= 0,
    ;
}

/// A strictly smaller remaining space outweighs any change of depth.
proof fn lemma_measure_dominant(n: int, gap0: int, gap1: int, ph0: int, ph1: int)
    requires
        n >= 0,
        gap1 < gap0,
        0 <= ph0 <= 2 * n + 1,
        0 <= ph1 <= 2 * n + 1,
    ensures
        (2 * n + 2) * gap1 + ph1 < (2 * n + 2) * gap0 + ph0,
{
    assert((2 * n + 2) * gap1 + ph1 < (2 * n + 2) * gap0 + ph0) by (nonlinear_arith)
        requires
            n >= 0,
            gap1 < gap0,
            0 <= ph0 <= 2 * n + 1,
            0 <= ph1 <= 2 * n + 1,
    ;
}

/// A `done` step completes the committed prefix in place: everything
/// below the top stays as it was, and the trial index at the top only
/// grew into a compatible choice.
pub open spec fn step_completes(s0: Seq<usize>, s1: Seq<usize>) -> bool {
    &&& s1.len() == s0.len()
    &&& s1.subrange(0, s0.len() - 1) == s0.subrange(0, s0.len() - 1)
    &&& s1[s0.len() - 1] >= s0[s0.len() - 1]
}

/// A descending step commits a compatible choice at or after the old
/// trial index and opens the next depth at index zero.
pub open spec fn step_descends(s0: Seq<usize>, s1: Seq<usize>) -> bool {
    &&& s1.len() == s0.len() + 1
    &&& s1.subrange(0, s0.len() - 1) == s0.subrange(0, s0.len() - 1)
    &&& s1[s0.len() - 1] >= s0[s0.len() - 1]
    &&& s1[s0.len() as int] == 0usize
}

/// A backtracking step pops the exhausted top and bumps the parent's
/// index by one; everything below the parent stays as it was.
pub open spec fn step_backtracks(s0: Seq<usize>, s1: Seq<usize>) -> bool {
    &&& s1.len() == s0.len() - 1
    &&& s1.subrange(0, s1.len() - 1) == s0.subrange(0, s1.len() - 1)
    &&& (s1[s1.len() - 1] as int) == s0[s1.len() - 1] + 1
}

/// What one step of the walk guarantees. When `done` holds, the state
/// is the least leaf at or beyond where the step started, reached by
/// completing the committed prefix in place. Otherwise the step took
/// one of the two shapes the walk allows — descend with a fresh zero
/// trial, or pop-and-bump the parent — moving strictly forward
/// without passing any leaf; an emptied state means the root itself
/// was exhausted and nothing lies beyond the start.
pub open spec fn walk_step_ok(gs: Seq<Group>, s0: Seq<usize>, s1: Seq<usize>, done: bool) -> bool {
    &&& (done ==> {
        &&& valid_leaf(gs, s1)
        &&& step_completes(s0, s1)
        &&& at_or_beyond(s1, s0)
        &&& (forall|l: Seq<usize>|
            valid_leaf(gs, l) && #[trigger] at_or_beyond(l, s0) ==> lex_le(s1, l))
    })
    &&& (!done ==> {
        &&& (s1.len() == 0 || walk_state_ok(gs, s1))
        &&& (s1.len() == 0 ==> s0.len() == 1)
        &&& (s1.len() > 0 ==> step_descends(s0, s1) || step_backtracks(s0, s1))
        &&& (forall|l: Seq<usize>|
            valid_leaf(gs, l) && #[trigger] at_or_beyond(l, s0) ==> s1.len() > 0 && at_or_beyond(
                l,
                s1,
            ))
        &&& (forall|l: Seq<usize>|
            full_in_range(gs, l) && s1.len() > 0 && #[trigger] at_or_beyond(l, s1)
                ==> at_or_beyond(l, s0))
        &&& (s1.len() > 0 ==> walk_measure(gs, s1) < walk_measure(gs, s0))
    })
}

/// Whether the candidate section conflicts with any section already
/// chosen along the committed prefix.
fn conflicts_with_prefix(groups: &Groups, prefix: &Vec<usize>, cand: &Section) -> (r: bool)
    requires
        prefix@.len() <= groups.groups@.len(),
        forall|k: int| 0 <= k < prefix@.len() ==> #[trigger] choice_in_range(
            groups.groups@,
            prefix@,
            k,
        ),
    ensures
        r == exists|k: int|
            0 <= k < prefix@.len() && compact_lists_conflict(
                #[trigger] chosen(groups.groups@, prefix@, k).times@,
                cand.times@,
            ),
{
    let ghost gs = groups.groups@;
    let mut k: usize = 0;
    while k < prefix.len()
        invariant
            gs == groups.groups@,
            prefix@.len() <= gs.len(),
            k <= prefix@.len(),
            forall|p: int| 0 <= p < prefix@.len() ==> #[trigger] choice_in_range(gs, prefix@, p),
            !exists|p: int|
                0 <= p < k && compact_lists_conflict(
                    #[trigger] chosen(gs, prefix@, p).times@,
                    cand.times@,
                ),
        decreases prefix@.len() - k,
    {
        proof {
            assert(choice_in_range(gs, prefix@, k as int));
        }
        let row = &groups.groups[k];
        let sec = &row.sections[prefix[k]];
        if section_conflict(sec, cand) {
            proof {
                assert(chosen(gs, prefix@, k as int) == *sec);
            }
            return true;
        }
        k = k + 1;
    }
    false
}

/// One step of the backtracking walk. The state holds a committed
/// conflict-free prefix with a trial index on top. The step scans the
/// top group from the trial index: a conflicting section advances the
/// trial, an exhausted group pops back and bumps the parent, and a
/// compatible section either descends with a fresh trial of zero or,
/// at full depth, completes the next leaf — then `true` is returned
/// and the state holds that leaf.
pub fn find_next_inner(groups: &Groups, state: &mut Vec<usize>) -> (done: bool)
    requires
        wf_groups(groups.groups@),
        walk_state_ok(groups.groups@, old(state)@),
    ensures
        walk_step_ok(groups.groups@, old(state)@, final(state)@, done),
{
    let ghost gs = groups.groups@;
    let ghost s0 = state@;
    let height = state.len() - 1;
    let row = &groups.groups[height];
    let start = state.pop().unwrap();
    let ghost p = state@;
    proof {
        assert(p == s0.subrange(0, s0.len() - 1));
        assert(s0 =~= p.push(start));
        assert(prefix_ok(gs, p));
    }
    let mut i = start;
    while i < row.sections.len()
        invariant
            gs == groups.groups@,
            wf_groups(gs),
            p.len() < gs.len(),
            *row == gs[p.len() as int],
            prefix_ok(gs, p),
            state@ == p,
            start <= i,
            i <= row.sections@.len(),
            s0 == p.push(start),
            s0 == old(state)@,
            (start as int) <= gs[p.len() as int].sections@.len(),
            forall|l: Seq<usize>|
                valid_leaf(gs, l) && #[trigger] at_or_beyond(l, s0) ==> at_or_beyond(l, p.push(i)),
            forall|l: Seq<usize>|
                full_in_range(gs, l) && #[trigger] at_or_beyond(l, p.push(i)) ==> at_or_beyond(
                    l,
                    s0,
                ),
        decreases row.sections@.len() - i,
    {
        let cand = &row.sections[i];
        let c = conflicts_with_prefix(groups, state, cand);
        if !c {
            let ghost q = p.push(i);
            proof {
                // the extended path is a conflict-free prefix
                assert forall|k: int| 0 <= k < q.len() implies #[trigger] choice_in_range(
                    gs,
                    q,
                    k,
                ) by {
                    if k < p.len() {
                        assert(choice_in_range(gs, p, k));
                    }
                }
                assert forall|k: int, j: int| 0 <= k < j < q.len() implies #[trigger] pair_free(
                    gs,
                    q,
                    k,
                    j,
                ) by {
                    if j < p.len() {
                        assert(pair_free(gs, p, k, j));
                    } else {
                        assert(!compact_lists_conflict(chosen(gs, p, k).times@, cand.times@));
                        assert(chosen(gs, q, k) == chosen(gs, p, k));
                        assert(chosen(gs, q, j) == *cand);
                    }
                }
                assert(prefix_ok(gs, q));
            }
            state.push(i);
            if state.len() < groups.groups.len() {
                state.push(0);
                proof {
                    let s1 = state@;
                    assert(s1 == q.push(0usize));
                    // still a well-formed walk state
                    assert(s1.subrange(0, s1.len() - 1) =~= q);
                    assert(walk_state_ok(gs, s1));
                    // leaves beyond the old state are beyond the new one
                    assert forall|l: Seq<usize>|
                        valid_leaf(gs, l) && #[trigger] at_or_beyond(l, s0) implies s1.len() > 0
                        && at_or_beyond(l, s1) by {
                        assert(at_or_beyond(l, q));
                        let pre1 = l.subrange(0, q.len() as int);
                        let pre2 = l.subrange(0, q.len() + 1 as int);
                        lemma_lex_push_le(q, 0usize, pre2);
                        assert(pre2.subrange(0, q.len() as int) =~= pre1);
                        if lex_lt(q, pre1) {
                            assert(lex_lt(q, pre2.subrange(0, q.len() as int)));
                        } else {
                            assert(q == pre1);
                            assert(q == pre2.subrange(0, q.len() as int));
                            assert(pre2[q.len() as int] >= 0);
                        }
                        assert(lex_le(s1, pre2));
                        assert(pre2 =~= l.subrange(0, s1.len() as int));
                        assert(at_or_beyond(l, s1));
                    }
                    // and leaves beyond the new state were beyond the old one
                    assert forall|l: Seq<usize>|
                        full_in_range(gs, l) && s1.len() > 0 && #[trigger] at_or_beyond(l, s1)
                        implies at_or_beyond(l, s0) by {
                        let pre1 = l.subrange(0, q.len() as int);
                        let pre2 = l.subrange(0, q.len() + 1 as int);
                        assert(pre2 =~= l.subrange(0, s1.len() as int));
                        assert(lex_le(s1, pre2));
                        lemma_lex_push_le(q, 0usize, pre2);
                        assert(pre2.subrange(0, q.len() as int) =~= pre1);
                        assert(lex_le(q, pre1));
                        assert(at_or_beyond(l, q));
                        assert(at_or_beyond(l, s0));
                    }
                    // the step has the descend shape
                    assert(step_descends(s0, s1)) by {
                        assert(s0.subrange(0, s0.len() - 1) =~= p);
                        assert(s1.subrange(0, s0.len() - 1) =~= p);
                        assert(s1[s0.len() - 1] == i);
                        assert(s0[s0.len() - 1] == start);
                        assert(s1[s0.len() as int] == 0usize);
                    }
                    // the measure shrinks: same or larger value, deeper on ties
                    lemma_cursor_value_push(gs, p, start, 0);
                    lemma_cursor_value_push(gs, p, i, 0);
                    lemma_cursor_value_push(gs, q, 0usize, 0);
                    let w = prod_sizes(gs, p.len() as int + 1);
                    lemma_prod_sizes_pos(gs, p.len() as int + 1);
                    assert(cursor_value_from(gs, s1, 0) == cursor_value_from(gs, q, 0));
                    if i == start {
                        assert(cursor_value_from(gs, s1, 0) == cursor_value_from(gs, s0, 0));
                        assert(!top_exhausted(gs, s0));
                        assert(!top_exhausted(gs, s1));
                        assert(walk_measure(gs, s1) < walk_measure(gs, s0));
                    } else {
                        let d0 = (i - start) as int;
                        assert(cursor_value_from(gs, s1, 0) - cursor_value_from(gs, s0, 0) == d0
                            * w) by (nonlinear_arith)
                            requires
                                cursor_value_from(gs, s1, 0) == cursor_value_from(gs, p, 0) + (
                                i as int) * w,
                                cursor_value_from(gs, s0, 0) == cursor_value_from(gs, p, 0) + (
                                start as int) * w,
                                d0 == i - start,
                        ;
                        assert(d0 * w >= 1) by (nonlinear_arith)
                            requires
                                d0 >= 1,
                                w >= 1,
                        ;
                        let n = gs.len() as int;
                        let t = prod_sizes(gs, 0);
                        lemma_measure_dominant(
                            n,
                            t - cursor_value_from(gs, s0, 0),
                            t - cursor_value_from(gs, s1, 0),
                            if top_exhausted(gs, s0) {
                                n + 1 + s0.len() as int
                            } else {
                                n - s0.len() as int
                            },
                            if top_exhausted(gs, s1) {
                                n + 1 + s1.len() as int
                            } else {
                                n - s1.len() as int
                            },
                        );
                    }
                }
                return false;
            }
            proof {
                let s1 = state@;
                assert(s1 == q);
                assert(valid_leaf(gs, s1));
                // the committed prefix stayed; only the trial grew
                assert(step_completes(s0, s1)) by {
                    assert(s0.subrange(0, s0.len() - 1) =~= p);
                    assert(s1.subrange(0, s0.len() - 1) =~= p);
                    assert(s1[s0.len() - 1] == i);
                    assert(s0[s0.len() - 1] == start);
                }
                // the leaf itself is at or beyond the starting state
                lemma_lex_push_le(p, start, s1);
                assert(s1.subrange(0, p.len() as int) =~= p);
                assert(lex_le(s0, s1));
                assert(s1.subrange(0, s0.len() as int) =~= s1);
                assert(at_or_beyond(s1, s0));
                // and nothing valid lies between: minimality
                assert forall|l: Seq<usize>|
                    valid_leaf(gs, l) && #[trigger] at_or_beyond(l, s0) implies lex_le(s1, l) by {
                    assert(at_or_beyond(l, q));
                    assert(l.subrange(0, q.len() as int) =~= l);
                }
            }
            return true;
        }
        proof {
            let ghost inext = (i + 1) as usize;
            // a conflicting choice rules out every leaf that would take it
            assert forall|l: Seq<usize>|
                valid_leaf(gs, l) && #[trigger] at_or_beyond(l, s0) implies at_or_beyond(
                l,
                p.push(inext),
            ) by {
                assert(at_or_beyond(l, p.push(i)));
                let pre1 = l.subrange(0, p.len() + 1 as int);
                assert(pre1 =~= l.subrange(0, p.push(i).len() as int));
                assert(lex_le(p.push(i), pre1));
                lemma_lex_push_le(p, i, pre1);
                lemma_lex_push_le(p, inext, pre1);
                if !lex_lt(p, pre1.subrange(0, p.len() as int)) {
                    assert(p == pre1.subrange(0, p.len() as int));
                    assert(pre1[p.len() as int] >= i);
                    if pre1[p.len() as int] == i {
                        // that leaf would pair the conflicting sections
                        let k0 = choose|k0: int|
                            0 <= k0 < p.len() && compact_lists_conflict(
                                #[trigger] chosen(gs, p, k0).times@,
                                cand.times@,
                            );
                        assert(l[k0] == pre1.subrange(0, p.len() as int)[k0]);
                        assert(l[k0] == p[k0]);
                        assert(l[p.len() as int] == i);
                        assert(chosen(gs, l, k0) == chosen(gs, p, k0));
                        assert(chosen(gs, l, p.len() as int) == *cand);
                        assert(pair_free(gs, l, k0, p.len() as int));
                        assert(false);
                    }
                    assert(pre1[p.len() as int] >= inext);
                }
                assert(lex_le(p.push(inext), pre1));
                assert(pre1 =~= l.subrange(0, p.push(inext).len() as int));
                assert(at_or_beyond(l, p.push(inext)));
            }
            // and anything beyond the advanced trial was beyond the old one
            assert forall|l: Seq<usize>|
                full_in_range(gs, l) && #[trigger] at_or_beyond(l, p.push(inext)) implies
                at_or_beyond(l, p.push(i)) by {
                let pre1 = l.subrange(0, p.len() + 1 as int);
                assert(pre1 =~= l.subrange(0, p.push(inext).len() as int));
                assert(lex_le(p.push(inext), pre1));
                lemma_lex_push_le(p, i, pre1);
                lemma_lex_push_le(p, inext, pre1);
                assert(lex_le(p.push(i), pre1));
                assert(pre1 =~= l.subrange(0, p.push(i).len() as int));
                assert(at_or_beyond(l, p.push(i)));
            }
            assert forall|l: Seq<usize>|
                full_in_range(gs, l) && #[trigger] at_or_beyond(l, p.push(inext)) implies
                at_or_beyond(l, s0) by {
                assert(at_or_beyond(l, p.push(i)));
            }
        }
        i = i + 1;
    }
    // the top group is exhausted: pop and bump the parent trial index
    if state.len() > 0 {
        let k = state.len() - 1;
        let v = state[k];
        let cap = groups.groups[k].sections.len();
        proof {
            assert(choice_in_range(gs, p, k as int));
            assert(v < cap);
        }
        state.set(k, v + 1);
        proof {
            let s1 = state@;
            let p2 = p.subrange(0, k as int);
            let vnext = (v + 1) as usize;
            assert(s1 =~= p2.push(vnext));
            assert(p =~= p2.push(v));
            // a well-formed walk state again
            lemma_prefix_ok_restrict(gs, p, k as int);
            assert(s1.subrange(0, s1.len() - 1) =~= p2);
            assert(walk_state_ok(gs, s1));
            // the step has the pop-and-bump shape
            assert(step_backtracks(s0, s1)) by {
                assert(s1.len() == s0.len() - 1);
                assert(s0.subrange(0, s1.len() - 1) =~= p2);
                assert(s1[s1.len() - 1] == vnext);
                assert(s0[s1.len() - 1] == p[k as int]);
            }
            let rowlen = gs[p.len() as int].sections@.len() as int;
            // leaves beyond the old state lie beyond the bumped parent
            assert forall|l: Seq<usize>|
                valid_leaf(gs, l) && #[trigger] at_or_beyond(l, s0) implies s1.len() > 0
                && at_or_beyond(l, s1) by {
                assert(at_or_beyond(l, p.push(i)));
                let pre1 = l.subrange(0, p.len() + 1 as int);
                assert(pre1 =~= l.subrange(0, p.push(i).len() as int));
                assert(lex_le(p.push(i), pre1));
                lemma_lex_push_le(p, i, pre1);
                assert(choice_in_range(gs, l, p.len() as int));
                if !lex_lt(p, pre1.subrange(0, p.len() as int))
                    && pre1[p.len() as int] >= i {
                    assert((l[p.len() as int] as int) < rowlen);
                    assert(pre1[p.len() as int] == l[p.len() as int]);
                    assert(false);
                }
                let prep = l.subrange(0, p.len() as int);
                assert(pre1.subrange(0, p.len() as int) =~= prep);
                assert(lex_lt(p, prep));
                lemma_lex_push_lt(p2, v, prep);
                assert(prep.subrange(0, k as int) =~= l.subrange(0, k as int));
                let prek = l.subrange(0, k + 1 as int);
                lemma_lex_push_le(p2, vnext, prek);
                assert(prek.subrange(0, k as int) =~= l.subrange(0, k as int));
                assert(prek[k as int] == l[k as int]);
                assert(prep[k as int] == l[k as int]);
                assert(lex_le(s1, prek));
                assert(prek =~= l.subrange(0, s1.len() as int));
                assert(at_or_beyond(l, s1));
            }
            // and leaves beyond the bumped parent were beyond the old state
            assert forall|l: Seq<usize>|
                full_in_range(gs, l) && s1.len() > 0 && #[trigger] at_or_beyond(l, s1) implies
                at_or_beyond(l, s0) by {
                let prek = l.subrange(0, k + 1 as int);
                assert(prek =~= l.subrange(0, s1.len() as int));
                assert(lex_le(s1, prek));
                lemma_lex_push_le(p2, vnext, prek);
                let prep = l.subrange(0, p.len() as int);
                lemma_lex_push_lt(p2, v, prep);
                assert(prek.subrange(0, k as int) =~= l.subrange(0, k as int));
                assert(prep.subrange(0, k as int) =~= l.subrange(0, k as int));
                assert(prek[k as int] == l[k as int]);
                assert(prep[k as int] == l[k as int]);
                assert(lex_lt(p, prep));
                let pre1 = l.subrange(0, p.len() + 1 as int);
                lemma_lex_push_le(p, start, pre1);
                assert(pre1.subrange(0, p.len() as int) =~= prep);
                assert(lex_le(s0, pre1));
                assert(pre1 =~= l.subrange(0, s0.len() as int));
                assert(at_or_beyond(l, s0));
            }
            // the measure shrinks: carrying into the parent never lowers
            // the value, and on a pure carry the state gets shorter
            lemma_cursor_value_push(gs, p, start, 0);
            lemma_cursor_value_push(gs, p2, v, 0);
            lemma_cursor_value_push(gs, p2, vnext, 0);
            let wk = prod_sizes(gs, k as int + 1);
            let wp = prod_sizes(gs, p.len() as int + 1);
            lemma_prod_sizes_pos(gs, p.len() as int + 1);
            assert(wk == rowlen * wp);
            assert(cursor_value_from(gs, s0, 0) == cursor_value_from(gs, p2, 0) + v * wk + start
                * wp);
            assert(cursor_value_from(gs, s1, 0) == cursor_value_from(gs, p2, 0) + vnext * wk);
            assert(vnext * wk == v * wk + wk) by (nonlinear_arith)
                requires
                    vnext == v + 1,
            ;
            let diff = cursor_value_from(gs, s1, 0) - cursor_value_from(gs, s0, 0);
            assert(diff == wk - start * wp);
            assert(diff == (rowlen - start) * wp) by (nonlinear_arith)
                requires
                    diff == rowlen * wp - start * wp,
            ;
            let n = gs.len() as int;
            if (start as int) < rowlen {
                assert(diff >= wp) by (nonlinear_arith)
                    requires
                        diff == (rowlen - start) * wp,
                        rowlen - start >= 1,
                        wp >= 1,
                ;
                lemma_measure_dominant(
                    n,
                    prod_sizes(gs, 0) - cursor_value_from(gs, s0, 0),
                    prod_sizes(gs, 0) - cursor_value_from(gs, s1, 0),
                    if top_exhausted(gs, s0) {
                        n + 1 + s0.len() as int
                    } else {
                        n - s0.len() as int
                    },
                    if top_exhausted(gs, s1) {
                        n + 1 + s1.len() as int
                    } else {
                        n - s1.len() as int
                    },
                );
            } else {
                assert(start as int == rowlen);
                assert(diff == 0) by (nonlinear_arith)
                    requires
                        diff == (rowlen - start) * wp,
                        rowlen == start,
                ;
                assert(top_exhausted(gs, s0));
                assert(walk_measure(gs, s1) < walk_measure(gs, s0));
            }
        }
        false
    } else {
        proof {
            // the root itself is exhausted: nothing lies at or beyond
            // the starting state
            assert(p.len() == 0);
            assert(s0.len() == 1);
            assert forall|l: Seq<usize>|
                valid_leaf(gs, l) && #[trigger] at_or_beyond(l, s0) implies false by {
                assert(at_or_beyond(l, p.push(i)));
                let pre1 = l.subrange(0, p.len() + 1 as int);
                assert(pre1 =~= l.subrange(0, p.push(i).len() as int));
                assert(lex_le(p.push(i), pre1));
                lemma_lex_push_le(p, i, pre1);
                assert(!lex_lt(p, pre1.subrange(0, p.len() as int)));
                assert(choice_in_range(gs, l, 0));
                assert(pre1[0] == l[0]);
                assert(false);
            }
        }
        false
    }
}

/// Whether the leaf `l` comes after the optional prior position.
pub open spec fn after_prior(prior: Option<Seq<usize>>, l: Seq<usize>) -> bool {
    match prior {
        None => true,
        Some(x) => lex_lt(x, l),
    }
}

/// Whether a decoded position can seed the walk: the choices below its
/// last entry are still pairwise conflict-free. A position whose
/// choices now conflict is treated like a stale one.
pub open spec fn resumable(gs: Seq<Group>, ix: Seq<usize>) -> bool {
    forall|a: int, b: int| 0 <= a < b < ix.len() - 1 ==> #[trigger] pair_free(gs, ix, a, b)
}

/// Decides whether the first `upto` choices of a cursor are pairwise
/// conflict-free.
fn cursor_prefix_free(groups: &Groups, c: &Vec<usize>, upto: usize) -> (r: bool)
    requires
        upto <= c@.len(),
        c@.len() <= groups.groups@.len(),
        forall|k: int| 0 <= k < c@.len() ==> #[trigger] choice_in_range(groups.groups@, c@, k),
    ensures
        r == (forall|a: int, b: int|
            0 <= a < b < upto ==> #[trigger] pair_free(groups.groups@, c@, a, b)),
{
    let ghost gs = groups.groups@;
    let mut b: usize = 0;
    while b < upto
        invariant
            gs == groups.groups@,
            upto <= c@.len(),
            c@.len() <= gs.len(),
            b <= upto,
            forall|k: int| 0 <= k < c@.len() ==> #[trigger] choice_in_range(gs, c@, k),
            forall|a0: int, b0: int| 0 <= a0 < b0 < b ==> #[trigger] pair_free(gs, c@, a0, b0),
        decreases upto - b,
    {
        let mut a: usize = 0;
        while a < b
            invariant
                gs == groups.groups@,
                upto <= c@.len(),
                c@.len() <= gs.len(),
                a <= b,
                b < upto,
                forall|k: int| 0 <= k < c@.len() ==> #[trigger] choice_in_range(gs, c@, k),
                forall|a0: int| 0 <= a0 < a ==> #[trigger] pair_free(gs, c@, a0, b as int),
            decreases b - a,
        {
            proof {
                assert(choice_in_range(gs, c@, a as int));
                assert(choice_in_range(gs, c@, b as int));
            }
            let sec_a = &groups.groups[a].sections[c[a]];
            let sec_b = &groups.groups[b].sections[c[b]];
            if section_conflict(sec_a, sec_b) {
                proof {
                    assert(chosen(gs, c@, a as int) == *sec_a);
                    assert(chosen(gs, c@, b as int) == *sec_b);
                    assert(!pair_free(gs, c@, a as int, b as int));
                }
                return false;
            }
            proof {
                assert(chosen(gs, c@, a as int) == *sec_a);
                assert(chosen(gs, c@, b as int) == *sec_b);
                assert(pair_free(gs, c@, a as int, b as int));
            }
            a = a + 1;
        }
        b = b + 1;
    }
    true
}

/// Finds the next conflict-free full cursor. With no usable prior
/// position the walk starts from the beginning; with a decoded,
/// still-resumable position it finds the first leaf strictly after it.
/// `None` means the walk is finished in this direction — or that there
/// are no groups at all, which is "no schedule", not an error.
///
/// A group list holding an empty group fails `wf_groups`, so it can
/// never reach the walk: the internal invariant is enforced ahead of
/// the walk rather than detected during it, and no cursor with an
/// out-of-range index can ever be returned.
pub fn find_next(groups: &Groups, state: Option<&[ThinSection]>) -> (r: Option<Vec<usize>>)
    requires
        wf_groups(groups.groups@),
    ensures
        ({
            let gs = groups.groups@;
            &&& (gs.len() == 0 ==> r is None)
            &&& (gs.len() > 0 && (state is None || !decodable(gs, state->Some_0@)) ==> match r {
                Some(l) => is_first_leaf(gs, l@),
                None => no_leaf(gs),
            })
            &&& (gs.len() > 0 && state is Some && decodable(gs, state->Some_0@)
                ==> (forall|ix: Seq<usize>| #[trigger]
                decodes_to(gs, state->Some_0@, ix) ==> (match r {
                    Some(l) => if resumable(gs, ix) {
                        is_next_leaf(gs, ix, l@)
                    } else {
                        is_first_leaf(gs, l@)
                    },
                    None => if resumable(gs, ix) {
                        no_next_leaf(gs, ix)
                    } else {
                        no_leaf(gs)
                    },
                })))
        }),
{
    let ghost gs = groups.groups@;
    if groups.groups.len() == 0 {
        return None;
    }
    let decoded: Option<Vec<usize>> = match state {
        Some(st) => decode(groups, st),
        None => None,
    };
    let ghost mut prior: Option<Seq<usize>> = None;
    let mut cur: Vec<usize>;
    let mut fresh_start: bool = true;
    match decoded {
        Some(ix) => {
            let mut ix = ix;
            let k = ix.len() - 1;
            if cursor_prefix_free(groups, &ix, k) {
                proof {
                    prior = Some(ix@);
                }
                let v = ix[k];
                let cap = groups.groups[k].sections.len();
                proof {
                    assert(is_first_crn_index(
                        gs[k as int].sections@,
                        state->Some_0@[k as int].crn,
                        ix@[k as int],
                    ));
                    assert(v < cap);
                }
                ix.set(k, v + 1);
                cur = ix;
                fresh_start = false;
            } else {
                let mut c0: Vec<usize> = Vec::new();
                c0.push(0);
                cur = c0;
            }
        },
        None => {
            let mut c0: Vec<usize> = Vec::new();
            c0.push(0);
            cur = c0;
        },
    }
    proof {
        // the starting state is a well-formed walk state, every leaf
        // after the prior lies at or beyond it, and conversely
        if prior is Some {
            let ix0 = prior->Some_0;
            let n = gs.len() as int;
            let p2 = ix0.subrange(0, n - 1);
            let v = ix0[n - 1];
            assert(ix0 =~= p2.push(v));
            assert(cur@ =~= p2.push((v + 1) as usize));
            assert forall|k: int| 0 <= k < p2.len() implies #[trigger] choice_in_range(
                gs,
                p2,
                k,
            ) by {
                assert(is_first_crn_index(gs[k].sections@, state->Some_0@[k].crn, ix0[k]));
            }
            assert forall|a: int, b: int| 0 <= a < b < p2.len() implies #[trigger] pair_free(
                gs,
                p2,
                a,
                b,
            ) by {
                assert(pair_free(gs, ix0, a, b));
                assert(chosen(gs, p2, a) == chosen(gs, ix0, a));
                assert(chosen(gs, p2, b) == chosen(gs, ix0, b));
            }
            assert(cur@.subrange(0, cur@.len() - 1) =~= p2);
            assert(is_first_crn_index(gs[n - 1].sections@, state->Some_0@[n - 1].crn, v));
            assert(walk_state_ok(gs, cur@));
            assert forall|l: Seq<usize>|
                valid_leaf(gs, l) && #[trigger] after_prior(prior, l) implies at_or_beyond(
                l,
                cur@,
            ) by {
                lemma_lex_push_lt(p2, v, l);
                lemma_lex_push_le(p2, (v + 1) as usize, l);
                assert(l.subrange(0, n - 1) == l.subrange(0, p2.len() as int));
                assert(lex_le(cur@, l));
                assert(l.subrange(0, cur@.len() as int) =~= l);
            }
            assert forall|l: Seq<usize>|
                full_in_range(gs, l) && #[trigger] at_or_beyond(l, cur@) implies after_prior(
                prior,
                l,
            ) by {
                assert(l.subrange(0, cur@.len() as int) =~= l);
                assert(lex_le(cur@, l));
                lemma_lex_push_lt(p2, v, l);
                lemma_lex_push_le(p2, (v + 1) as usize, l);
            }
        } else {
            assert(cur@ =~= seq![0usize]);
            assert(cur@.subrange(0, 0) =~= Seq::<usize>::empty());
            assert(walk_state_ok(gs, cur@));
            assert forall|l: Seq<usize>|
                valid_leaf(gs, l) && #[trigger] after_prior(prior, l) implies at_or_beyond(
                l,
                cur@,
            ) by {
                lemma_at_or_beyond_start(l);
            }
        }
    }
    loop
        invariant
            gs == groups.groups@,
            wf_groups(gs),
            gs.len() > 0,
            walk_state_ok(gs, cur@),
            forall|l: Seq<usize>|
                valid_leaf(gs, l) && #[trigger] after_prior(prior, l) ==> at_or_beyond(l, cur@),
            forall|l: Seq<usize>|
                full_in_range(gs, l) && #[trigger] at_or_beyond(l, cur@) ==> after_prior(prior, l),
            match prior {
                None => fresh_start,
                Some(ix0) => !fresh_start && state is Some && decodes_to(
                    gs,
                    state->Some_0@,
                    ix0,
                ) && resumable(gs, ix0),
            },
            fresh_start ==> (state is None || !decodable(gs, state->Some_0@) || (
            exists|ix0: Seq<usize>| #[trigger]
                decodes_to(gs, state->Some_0@, ix0) && !resumable(gs, ix0))),
        decreases walk_measure(gs, cur@),
    {
        proof {
            lemma_walk_measure_nonneg(gs, cur@);
        }
        let ghost s_before = cur@;
        let done = find_next_inner(groups, &mut cur);
        if cur.len() == 0 {
            proof {
                assert forall|l: Seq<usize>| #[trigger] valid_leaf(gs, l) implies !after_prior(
                    prior,
                    l,
                ) by {
                    if after_prior(prior, l) {
                        assert(at_or_beyond(l, s_before));
                        assert(false);
                    }
                }
                if prior is None {
                    assert(no_leaf(gs));
                }
                if prior is Some {
                    let ix0 = prior->Some_0;
                    lemma_decodes_implies_decodable(gs, state->Some_0@, ix0);
                    assert forall|ix: Seq<usize>| #[trigger]
                        decodes_to(gs, state->Some_0@, ix) implies no_next_leaf(gs, ix)
                        && resumable(gs, ix) by {
                        lemma_decode_unique(gs, state->Some_0@, ix, ix0);
                    }
                } else if state is Some && decodable(gs, state->Some_0@) {
                    let ix0 = choose|ix0: Seq<usize>| #[trigger]
                        decodes_to(gs, state->Some_0@, ix0) && !resumable(gs, ix0);
                    assert forall|ix: Seq<usize>| #[trigger]
                        decodes_to(gs, state->Some_0@, ix) implies !resumable(gs, ix) by {
                        lemma_decode_unique(gs, state->Some_0@, ix, ix0);
                    }
                }
            }
            return None;
        }
        if done {
            proof {
                assert(valid_leaf(gs, cur@));
                assert(at_or_beyond(cur@, s_before));
                assert(after_prior(prior, cur@));
                assert forall|l2: Seq<usize>|
                    valid_leaf(gs, l2) && #[trigger] after_prior(prior, l2) implies lex_le(
                    cur@,
                    l2,
                ) by {
                    assert(at_or_beyond(l2, s_before));
                }
                if prior is Some {
                    let ix0 = prior->Some_0;
                    lemma_decodes_implies_decodable(gs, state->Some_0@, ix0);
                    assert(is_next_leaf(gs, ix0, cur@)) by {
                        assert forall|l2: Seq<usize>| #[trigger]
                            valid_leaf(gs, l2) && lex_lt(ix0, l2) implies lex_le(cur@, l2) by {
                            assert(after_prior(prior, l2));
                        }
                    }
                    assert forall|ix: Seq<usize>| #[trigger]
                        decodes_to(gs, state->Some_0@, ix) implies is_next_leaf(gs, ix, cur@)
                        && resumable(gs, ix) by {
                        lemma_decode_unique(gs, state->Some_0@, ix, ix0);
                    }
                } else {
                    assert(is_first_leaf(gs, cur@)) by {
                        assert forall|l2: Seq<usize>| #[trigger]
                            valid_leaf(gs, l2) implies lex_le(cur@, l2) by {
                            assert(after_prior(prior, l2));
                        }
                    }
                    if state is Some && decodable(gs, state->Some_0@) {
                        let ix0 = choose|ix0: Seq<usize>| #[trigger]
                            decodes_to(gs, state->Some_0@, ix0) && !resumable(gs, ix0);
                        assert forall|ix: Seq<usize>| #[trigger]
                            decodes_to(gs, state->Some_0@, ix) implies !resumable(gs, ix) by {
                            lemma_decode_unique(gs, state->Some_0@, ix, ix0);
                        }
                    }
                }
            }
            return Some(cur);
        }
        proof {
            lemma_walk_measure_nonneg(gs, cur@);
        }
    }
}

} // verus!
