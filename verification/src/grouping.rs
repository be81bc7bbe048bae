//! The grouper: partitioning each course's sections into ordered
//! groups of interchangeable alternatives.

use vstd::prelude::*;

use crate::course::Course;
use crate::course::Section;
use crate::course::same_sections;

verus! {

/// The first character of a sequence code, which encodes the
/// component type.
pub open spec fn first_char(s: Seq<char>) -> Option<char> {
    if s.len() == 0 {
        None
    } else {
        Some(s[0])
    }
}

/// Two sections fill the same slot when they belong to one course and
/// their sequence codes open with the same type character.
pub open spec fn same_slot(a: Section, b: Section) -> bool {
    &&& a.subject_code@ == b.subject_code@
    &&& a.course_code@ == b.course_code@
    &&& first_char(a.sequence_code@) == first_char(b.sequence_code@)
}

/// Reads the first character of a sequence code.
fn first_char_of(s: &String) -> (r: Option<char>)
    ensures
        r == first_char(s@),
{
    if s.as_str().is_empty() {
        None
    } else {
        Some(s.as_str().get_char(0))
    }
}

/// Decides whether two sections fill the same slot.
fn same_slot_exec(a: &Section, b: &Section) -> (r: bool)
    ensures
        r == same_slot(*a, *b),
{
    if !(a.subject_code == b.subject_code) {
        return false;
    }
    if !(a.course_code == b.course_code) {
        return false;
    }
    let ca = first_char_of(&a.sequence_code);
    let cb = first_char_of(&b.sequence_code);
    match (ca, cb) {
        (Some(x), Some(y)) => x == y,
        (None, None) => true,
        _ => false,
    }
}

/// The length of the leading run of sections that all fill the first
/// section's slot.
pub open spec fn run_len(s: Seq<Section>) -> int
    decreases s.len(),
{
    if s.len() == 0 {
        0
    } else if s.len() >= 2 && same_slot(s[0], s[1]) {
        1 + run_len(s.skip(1))
    } else {
        1
    }
}

/// A non-empty list has a run of at least one section.
pub proof fn lemma_run_len_bounds(s: Seq<Section>)
    requires
        s.len() > 0,
    ensures
        1 <= run_len(s) <= s.len(),
    decreases s.len(),
{
    if s.len() >= 2 && same_slot(s[0], s[1]) {
        lemma_run_len_bounds(s.skip(1));
    }
}

/// A run is delimited exactly by its first break in slot equality.
proof fn lemma_run_len_is(s: Seq<Section>, k: int)
    requires
        1 <= k <= s.len(),
        forall|t: int| 0 < t < k ==> same_slot(#[trigger] s[t - 1], s[t]),
        k < s.len() ==> !same_slot(s[k - 1], s[k]),
    ensures
        run_len(s) == k,
    decreases k,
{
    if s.len() >= 2 && same_slot(s[0], s[1]) {
        assert(k >= 2) by {
            if k == 1 {
                assert(!same_slot(s[0], s[1]));
            }
        }
        let s1 = s.skip(1);
        assert forall|t: int| 0 < t < k - 1 implies same_slot(#[trigger] s1[t - 1], s1[t]) by {
            assert(same_slot(s[(t + 1) - 1], s[t + 1]));
            assert(s1[t - 1] == s[t]);
            assert(s1[t] == s[t + 1]);
        }
        if k - 1 < s1.len() {
            assert(s1[k - 2] == s[k - 1]);
            assert(s1[k - 1] == s[k]);
        }
        lemma_run_len_is(s1, k - 1);
    } else {
        assert(k == 1) by {
            if k >= 2 {
                assert(same_slot(s[1 - 1], s[1]));
            }
        }
    }
}

/// The section list split into its maximal runs of one slot, in order.
pub open spec fn chunk_runs(s: Seq<Section>) -> Seq<Seq<Section>>
    decreases s.len(),
    via chunk_runs_decreases
{
    if s.len() == 0 {
        Seq::empty()
    } else {
        seq![s.subrange(0, run_len(s))] + chunk_runs(s.skip(run_len(s)))
    }
}

#[via_fn]
proof fn chunk_runs_decreases(s: Seq<Section>) {
    if s.len() != 0 {
        lemma_run_len_bounds(s);
    }
}

/// Every run is non-empty.
pub proof fn lemma_chunk_runs_nonempty(s: Seq<Section>)
    ensures
        forall|i: int| 0 <= i < chunk_runs(s).len() ==> #[trigger] chunk_runs(s)[i].len() > 0,
    decreases s.len(),
{
    if s.len() != 0 {
        lemma_run_len_bounds(s);
        lemma_chunk_runs_nonempty(s.skip(run_len(s)));
        assert forall|i: int| 0 <= i < chunk_runs(s).len() implies #[trigger] chunk_runs(
            s,
        )[i].len() > 0 by {
            if i == 0 {
                assert(chunk_runs(s)[0] == s.subrange(0, run_len(s)));
            } else {
                assert(chunk_runs(s)[i] == chunk_runs(s.skip(run_len(s)))[i - 1]);
            }
        }
    }
}

/// The ordered groups of one enumeration request: each course's
/// sections split into runs, courses in the order given.
pub open spec fn spec_partition(courses: Seq<Course>) -> Seq<Seq<Section>>
    decreases courses.len(),
{
    if courses.len() == 0 {
        Seq::empty()
    } else {
        chunk_runs(courses[0].sections@) + spec_partition(courses.skip(1))
    }
}

/// Every group of the partition is non-empty: the grouper never
/// fabricates an empty group.
pub proof fn lemma_spec_partition_nonempty(courses: Seq<Course>)
    ensures
        forall|i: int|
            0 <= i < spec_partition(courses).len() ==> #[trigger] spec_partition(
                courses,
            )[i].len() > 0,
    decreases courses.len(),
{
    if courses.len() != 0 {
        lemma_chunk_runs_nonempty(courses[0].sections@);
        lemma_spec_partition_nonempty(courses.skip(1));
        let head = chunk_runs(courses[0].sections@);
        assert forall|i: int| 0 <= i < spec_partition(courses).len() implies #[trigger]
            spec_partition(courses)[i].len() > 0 by {
            if i < head.len() {
                assert(spec_partition(courses)[i] == head[i]);
            } else {
                assert(spec_partition(courses)[i] == spec_partition(courses.skip(1))[i
                    - head.len()]);
            }
        }
    }
}

/// Group lists that agree section by section.
pub open spec fn same_groups(a: Seq<Seq<Section>>, b: Seq<Seq<Section>>) -> bool {
    a.len() == b.len() && forall|i: int| 0 <= i < a.len() ==> #[trigger] same_sections(a[i], b[i])
}

/// The views of a built group list.
pub open spec fn group_views(v: Seq<Vec<Section>>) -> Seq<Seq<Section>> {
    v.map_values(|g: Vec<Section>| g@)
}

/// Splits one course's sections into their slot runs, cloning each
/// section into its group.
fn chunk_course(secs: &Vec<Section>) -> (r: Vec<Vec<Section>>)
    ensures
        same_groups(group_views(r@), chunk_runs(secs@)),
{
    let mut r: Vec<Vec<Section>> = Vec::new();
    let ghost mut emitted: Seq<Seq<Section>> = Seq::empty();
    let mut start: usize = 0;
    proof {
        assert(secs@.skip(0) =~= secs@);
        assert(emitted + chunk_runs(secs@) =~= chunk_runs(secs@));
    }
    while start < secs.len()
        invariant
            start <= secs@.len(),
            chunk_runs(secs@) == emitted + chunk_runs(secs@.skip(start as int)),
            same_groups(group_views(r@), emitted),
        decreases secs@.len() - start,
    {
        let mut end = start + 1;
        while end < secs.len() && same_slot_exec(&secs[end - 1], &secs[end])
            invariant
                start < end <= secs@.len(),
                forall|t: int| start < t < end ==> same_slot(#[trigger] secs@[t - 1], secs@[t]),
            decreases secs@.len() - end,
        {
            end = end + 1;
        }
        let ghost tail = secs@.skip(start as int);
        proof {
            assert forall|t: int| 0 < t < end - start implies same_slot(
                #[trigger] tail[t - 1],
                tail[t],
            ) by {
                assert(same_slot(secs@[start + t - 1], secs@[start + t]));
            }
            if end < secs@.len() {
                assert(tail[end - start - 1] == secs@[end - 1]);
                assert(tail[end - start] == secs@[end as int]);
            }
            lemma_run_len_is(tail, end - start);
        }
        let mut chunk: Vec<Section> = Vec::new();
        let mut t = start;
        while t < end
            invariant
                start <= t <= end,
                end <= secs@.len(),
                same_sections(chunk@, secs@.subrange(start as int, t as int)),
            decreases end - t,
        {
            proof {
                let sub1 = secs@.subrange(start as int, t as int);
                let sub2 = secs@.subrange(start as int, t + 1 as int);
                assert(sub2 =~= sub1.push(secs@[t as int]));
            }
            chunk.push(secs[t].clone());
            t = t + 1;
        }
        let ghost r_old = r@;
        let ghost emitted_old = emitted;
        let ghost piece = secs@.subrange(start as int, end as int);
        r.push(chunk);
        proof {
            assert(tail.subrange(0, end - start) =~= piece);
            assert(tail.skip(end - start) =~= secs@.skip(end as int));
            emitted = emitted_old + seq![piece];
            assert(chunk_runs(secs@) == emitted + chunk_runs(secs@.skip(end as int))) by {
                assert(chunk_runs(tail) == seq![piece] + chunk_runs(secs@.skip(end as int)));
                assert(emitted_old + (seq![piece] + chunk_runs(secs@.skip(end as int))) =~= (
                emitted_old + seq![piece]) + chunk_runs(secs@.skip(end as int)));
            }
            assert(same_groups(group_views(r@), emitted)) by {
                assert(group_views(r@).len() == emitted.len());
                assert forall|i: int| 0 <= i < group_views(r@).len() implies #[trigger]
                    same_sections(group_views(r@)[i], emitted[i]) by {
                    if i < r_old.len() {
                        assert(r@[i] == r_old[i]);
                        assert(same_sections(group_views(r_old)[i], emitted_old[i]));
                        assert(group_views(r_old)[i] == r_old[i]@);
                        assert(emitted[i] == emitted_old[i]);
                    } else {
                        assert(r@[i] == chunk);
                        assert(emitted[i] == piece);
                        assert(same_sections(chunk@, piece));
                    }
                }
            }
        }
        start = end;
    }
    proof {
        assert(secs@.skip(start as int) =~= Seq::<Section>::empty());
        assert(chunk_runs(secs@) =~= emitted);
    }
    r
}

/// Partitioning distributes over concatenation of course lists.
proof fn lemma_spec_partition_concat(a: Seq<Course>, b: Seq<Course>)
    ensures
        spec_partition(a + b) == spec_partition(a) + spec_partition(b),
    decreases a.len(),
{
    if a.len() == 0 {
        assert(a + b =~= b);
        assert(spec_partition(a) + spec_partition(b) =~= spec_partition(b));
    } else {
        assert((a + b).skip(1) =~= a.skip(1) + b);
        assert((a + b)[0] == a[0]);
        assert((a + b).len() != 0);
        lemma_spec_partition_concat(a.skip(1), b);
        assert(chunk_runs(a[0].sections@) + (spec_partition(a.skip(1)) + spec_partition(b)) =~= (
        chunk_runs(a[0].sections@) + spec_partition(a.skip(1))) + spec_partition(b));
    }
}

/// Builds the ordered group list for a request: each course's
/// sections split into slot runs, with first-seen order kept.
pub fn partition(courses: &[Course]) -> (r: Vec<Vec<Section>>)
    ensures
        same_groups(group_views(r@), spec_partition(courses@)),
{
    let mut r: Vec<Vec<Section>> = Vec::new();
    let ghost mut emitted: Seq<Seq<Section>> = Seq::empty();
    let mut ci: usize = 0;
    proof {
        assert(spec_partition(courses@.subrange(0, 0)) =~= Seq::<Seq<Section>>::empty());
    }
    while ci < courses.len()
        invariant
            ci <= courses@.len(),
            emitted == spec_partition(courses@.subrange(0, ci as int)),
            same_groups(group_views(r@), emitted),
        decreases courses@.len() - ci,
    {
        let mut chunks = chunk_course(&courses[ci].sections);
        let ghost chunks_vec = chunks@;
        let ghost chunks_views = group_views(chunks@);
        let ghost r_old = r@;
        let ghost emitted_old = emitted;
        r.append(&mut chunks);
        proof {
            let pre = courses@.subrange(0, ci as int);
            let one = seq![courses@[ci as int]];
            emitted = emitted_old + chunk_runs(courses@[ci as int].sections@);
            lemma_spec_partition_concat(pre, one);
            assert(pre + one =~= courses@.subrange(0, ci + 1 as int));
            assert(spec_partition(one) == chunk_runs(one[0].sections@) + spec_partition(
                one.skip(1),
            ));
            assert(one.skip(1) =~= Seq::<Course>::empty());
            assert(chunk_runs(one[0].sections@) + spec_partition(one.skip(1)) =~= chunk_runs(
                courses@[ci as int].sections@,
            ));
            assert(emitted == spec_partition(courses@.subrange(0, ci + 1 as int)));
            assert(same_groups(group_views(r@), emitted)) by {
                assert(group_views(r@).len() == emitted.len());
                assert forall|i: int| 0 <= i < group_views(r@).len() implies #[trigger]
                    same_sections(group_views(r@)[i], emitted[i]) by {
                    if i < r_old.len() {
                        assert(r@[i] == r_old[i]);
                        assert(same_sections(group_views(r_old)[i], emitted_old[i]));
                        assert(group_views(r_old)[i] == r_old[i]@);
                        assert(emitted[i] == emitted_old[i]);
                    } else {
                        assert(r@[i] == chunks_vec[i - r_old.len()]);
                        assert(group_views(r@)[i] == r@[i]@);
                        assert(chunks_views[i - r_old.len()] == chunks_vec[i - r_old.len()]@);
                        assert(same_sections(
                            chunks_views[i - r_old.len()],
                            chunk_runs(courses@[ci as int].sections@)[i - r_old.len()],
                        ));
                        assert(emitted[i] == chunk_runs(courses@[ci as int].sections@)[i
                            - r_old.len()]);
                    }
                }
            }
        }
        ci = ci + 1;
    }
    proof {
        assert(courses@.subrange(0, courses@.len() as int) =~= courses@);
    }
    r
}

} // verus!
