//! A user's selected courses and sections, and the schedules built
//! from them.

use vstd::prelude::*;

use crate::course::Course;
use crate::course::Section;
use crate::course::SectionType;
use crate::course::Term;
use crate::course::ThinCourse;
use crate::course::ThinSection;
use crate::course::same_section;
use crate::course::same_sections;

verus! {

/// The deployment stage the application runs in.
#[derive(Clone, Copy, PartialEq, Eq, Structural, Debug)]
pub enum Stage {
    LOCAL,
    PROD,
}

/// Which stage a configuration word names; anything unknown is local.
pub open spec fn spec_stage_of(v: Seq<char>) -> Stage {
    if v == "prod"@ {
        Stage::PROD
    } else {
        Stage::LOCAL
    }
}

impl From<String> for Stage {
    fn from(value: String) -> (r: Stage) {
        let prod = "prod".to_owned();
        if value == prod {
            Stage::PROD
        } else {
            Stage::LOCAL
        }
    }
}

impl vstd::std_specs::convert::FromSpecImpl<String> for Stage {
    open spec fn obeys_from_spec() -> bool {
        true
    }

    open spec fn from_spec(value: String) -> Stage {
        spec_stage_of(value@)
    }
}

/// The chosen sections for one course: its lecture, and optional lab
/// and tutorial.
#[derive(Clone, Copy, PartialEq, Eq, Structural, Debug)]
pub struct Selection {
    pub lecture: ThinSection,
    pub lab: Option<ThinSection>,
    pub tutorial: Option<ThinSection>,
}

/// The registration numbers a selection names, lecture first.
pub open spec fn spec_selection_crns(s: Selection) -> Seq<u64> {
    seq![s.lecture.crn] + (match s.lab {
        Some(t) => seq![t.crn],
        None => Seq::empty(),
    }) + (match s.tutorial {
        Some(t) => seq![t.crn],
        None => Seq::empty(),
    })
}

impl Selection {
    /// The registration numbers of the chosen sections, lecture first.
    pub fn crns(&self) -> (r: Vec<u64>)
        ensures
            r@ == spec_selection_crns(*self),
    {
        let mut r: Vec<u64> = Vec::new();
        r.push(self.lecture.crn);
        if let Some(t) = self.lab {
            r.push(t.crn);
        }
        if let Some(t) = self.tutorial {
            r.push(t.crn);
        }
        proof {
            assert(r@ =~= spec_selection_crns(*self));
        }
        r
    }
}

impl Default for Selection {
    /// An empty selection: a placeholder lecture and nothing else.
    fn default() -> (r: Self)
        ensures
            r.lecture.crn == 0,
            r.lab is None,
            r.tutorial is None,
    {
        Selection { lecture: ThinSection { crn: 0 }, lab: None, tutorial: None }
    }
}

/// The key a section is filed under: its course.
pub open spec fn spec_course_key(s: Section) -> ThinCourse {
    ThinCourse { subject_code: s.subject_code, course_code: s.course_code }
}

/// Course keys that agree letter for letter.
pub open spec fn same_course_key(a: ThinCourse, b: ThinCourse) -> bool {
    a.subject_code@ == b.subject_code@ && a.course_code@ == b.course_code@
}

/// The full set of selected courses, in the order they were added.
/// The intended shape — which `from_sections` establishes — files
/// each course under exactly one entry: keys are pairwise distinct.
#[derive(Debug)]
pub struct SelectedCourses {
    pub courses: Vec<(ThinCourse, Selection)>,
}

/// Every course appears under at most one entry.
pub open spec fn distinct_courses(m: Seq<(ThinCourse, Selection)>) -> bool {
    forall|a: int, b: int|
        #![trigger m[a], m[b]]
        0 <= a < b < m.len() ==> !same_course_key(m[a].0, m[b].0)
}

impl Clone for SelectedCourses {
    fn clone(&self) -> (r: Self)
        ensures
            r.courses@.len() == self.courses@.len(),
            forall|i: int|
                0 <= i < self.courses@.len() ==> same_course_key(
                    #[trigger] r.courses@[i].0,
                    self.courses@[i].0,
                ) && r.courses@[i].1 == self.courses@[i].1,
    {
        let mut out: Vec<(ThinCourse, Selection)> = Vec::new();
        let mut i: usize = 0;
        while i < self.courses.len()
            invariant
                i <= self.courses@.len(),
                out@.len() == i,
                forall|k: int|
                    0 <= k < i ==> same_course_key(
                        #[trigger] out@[k].0,
                        self.courses@[k].0,
                    ) && out@[k].1 == self.courses@[k].1,
            decreases self.courses@.len() - i,
        {
            let pair = &self.courses[i];
            out.push((pair.0.clone(), pair.1));
            i = i + 1;
        }
        SelectedCourses { courses: out }
    }
}

/// The registration numbers of a whole selection list, in order.
pub open spec fn spec_courses_crns(m: Seq<(ThinCourse, Selection)>) -> Seq<u64>
    decreases m.len(),
{
    if m.len() == 0 {
        Seq::empty()
    } else {
        spec_courses_crns(m.drop_last()) + spec_selection_crns(m.last().1)
    }
}

impl SelectedCourses {
    /// The selected courses themselves, in order.
    pub fn thin_courses(&self) -> (r: Vec<ThinCourse>)
        ensures
            r@.len() == self.courses@.len(),
            forall|i: int|
                0 <= i < r@.len() ==> same_course_key(#[trigger] r@[i], self.courses@[i].0),
    {
        let mut r: Vec<ThinCourse> = Vec::new();
        let mut i: usize = 0;
        while i < self.courses.len()
            invariant
                i <= self.courses@.len(),
                r@.len() == i,
                forall|k: int|
                    0 <= k < i ==> same_course_key(#[trigger] r@[k], self.courses@[k].0),
            decreases self.courses@.len() - i,
        {
            r.push(self.courses[i].0.clone());
            i = i + 1;
        }
        r
    }

    /// Every chosen registration number, course by course.
    pub fn crns(&self) -> (r: Vec<u64>)
        ensures
            r@ == spec_courses_crns(self.courses@),
    {
        let mut r: Vec<u64> = Vec::new();
        let mut i: usize = 0;
        while i < self.courses.len()
            invariant
                i <= self.courses@.len(),
                r@ == spec_courses_crns(self.courses@.subrange(0, i as int)),
            decreases self.courses@.len() - i,
        {
            let mut one = self.courses[i].1.crns();
            r.append(&mut one);
            proof {
                let pre = self.courses@.subrange(0, i as int);
                let nxt = self.courses@.subrange(0, i + 1 as int);
                assert(nxt.drop_last() =~= pre);
                assert(nxt.last() == self.courses@[i as int]);
            }
            i = i + 1;
        }
        proof {
            assert(self.courses@.subrange(0, self.courses@.len() as int) =~= self.courses@);
        }
        r
    }
}

/// The first entry filed under `key`, if any.
pub open spec fn spec_find_course(m: Seq<(ThinCourse, Selection)>, key: ThinCourse) -> Option<int>
    decreases m.len(),
{
    if m.len() == 0 {
        None
    } else if same_course_key(m[0].0, key) {
        Some(0int)
    } else {
        match spec_find_course(m.skip(1), key) {
            Some(i) => Some(i + 1),
            None => None,
        }
    }
}

proof fn lemma_find_course_some(m: Seq<(ThinCourse, Selection)>, key: ThinCourse, j: int)
    requires
        0 <= j < m.len(),
        same_course_key(m[j].0, key),
        forall|k: int| 0 <= k < j ==> !same_course_key(#[trigger] m[k].0, key),
    ensures
        spec_find_course(m, key) == Some(j),
    decreases m.len(),
{
    if same_course_key(m[0].0, key) {
        assert(j == 0) by {
            if j > 0 {
                assert(!same_course_key(m[0].0, key));
            }
        }
    } else {
        assert(j >= 1);
        let m1 = m.skip(1);
        assert(m1[j - 1] == m[j]);
        assert forall|k: int| 0 <= k < j - 1 implies !same_course_key(#[trigger] m1[k].0, key) by {
            assert(m1[k] == m[k + 1]);
            assert(!same_course_key(m[k + 1].0, key));
        }
        lemma_find_course_some(m1, key, j - 1);
    }
}

/// When nothing is filed under `key`, no entry carries it.
proof fn lemma_find_none_absent(m: Seq<(ThinCourse, Selection)>, key: ThinCourse)
    requires
        spec_find_course(m, key) is None,
    ensures
        forall|k: int| 0 <= k < m.len() ==> !same_course_key(#[trigger] m[k].0, key),
    decreases m.len(),
{
    if m.len() > 0 {
        lemma_find_none_absent(m.skip(1), key);
        assert forall|k: int| 0 <= k < m.len() implies !same_course_key(
            #[trigger] m[k].0,
            key,
        ) by {
            if k > 0 {
                assert(m.skip(1)[k - 1] == m[k]);
                assert(!same_course_key(m.skip(1)[k - 1].0, key));
            }
        }
    }
}

/// A found entry lies within the list.
proof fn lemma_find_course_range(m: Seq<(ThinCourse, Selection)>, key: ThinCourse)
    requires
        spec_find_course(m, key) is Some,
    ensures
        0 <= spec_find_course(m, key)->Some_0 < m.len(),
    decreases m.len(),
{
    if m.len() > 0 && !same_course_key(m[0].0, key) {
        lemma_find_course_range(m.skip(1), key);
    }
}

/// Filing one more section keeps the keys pairwise distinct.
proof fn lemma_apply_keeps_distinct(m: Seq<(ThinCourse, Selection)>, s: Section)
    requires
        distinct_courses(m),
    ensures
        distinct_courses(spec_apply_section(m, s)),
{
    let key = spec_course_key(s);
    let r = spec_apply_section(m, s);
    match spec_find_course(m, key) {
        Some(i) => {
            lemma_find_course_range(m, key);
            assert forall|a: int, b: int|
                #![trigger r[a], r[b]]
                0 <= a < b < r.len() implies !same_course_key(r[a].0, r[b].0) by {
                if a != i {
                    assert(r[a] == m[a]);
                }
                if b != i {
                    assert(r[b] == m[b]);
                }
                assert(r[a].0 == m[a].0);
                assert(r[b].0 == m[b].0);
            }
        },
        None => {
            lemma_find_none_absent(m, key);
            assert forall|a: int, b: int|
                #![trigger r[a], r[b]]
                0 <= a < b < r.len() implies !same_course_key(r[a].0, r[b].0) by {
                if b < m.len() {
                    assert(r[a] == m[a]);
                    assert(r[b] == m[b]);
                } else {
                    assert(r[a] == m[a]);
                    assert(r[b].0 == key);
                    assert(!same_course_key(m[a].0, key));
                }
            }
        },
    }
}

/// The filing of any section list has pairwise distinct keys.
pub proof fn lemma_selected_of_distinct(secs: Seq<Section>)
    ensures
        distinct_courses(spec_selected_of(secs)),
    decreases secs.len(),
{
    if secs.len() > 0 {
        lemma_selected_of_distinct(secs.drop_last());
        lemma_apply_keeps_distinct(spec_selected_of(secs.drop_last()), secs.last());
    }
}

proof fn lemma_find_course_none(m: Seq<(ThinCourse, Selection)>, key: ThinCourse)
    requires
        forall|k: int| 0 <= k < m.len() ==> !same_course_key(#[trigger] m[k].0, key),
    ensures
        spec_find_course(m, key) is None,
    decreases m.len(),
{
    if m.len() > 0 {
        let m1 = m.skip(1);
        assert forall|k: int| 0 <= k < m1.len() implies !same_course_key(
            #[trigger] m1[k].0,
            key,
        ) by {
            assert(m1[k] == m[k + 1]);
            assert(!same_course_key(m[k + 1].0, key));
        }
        lemma_find_course_none(m1, key);
    }
}

/// How one more section changes the filed selections: it joins its
/// course's entry under its component type, making the entry first
/// if the course is new. A section whose type cannot be classified
/// leaves the entry as it stood.
pub open spec fn spec_apply_section(
    m: Seq<(ThinCourse, Selection)>,
    s: Section,
) -> Seq<(ThinCourse, Selection)> {
    let key = spec_course_key(s);
    let ts = ThinSection { crn: s.crn };
    let base = match spec_find_course(m, key) {
        Some(i) => m[i].1,
        None => Selection { lecture: ThinSection { crn: 0 }, lab: None, tutorial: None },
    };
    let sel = match s.spec_get_type() {
        Some(SectionType::Lecture) => Selection {
            lecture: ts,
            lab: base.lab,
            tutorial: base.tutorial,
        },
        Some(SectionType::Lab) => Selection {
            lecture: base.lecture,
            lab: Some(ts),
            tutorial: base.tutorial,
        },
        Some(SectionType::Tutorial) => Selection {
            lecture: base.lecture,
            lab: base.lab,
            tutorial: Some(ts),
        },
        None => base,
    };
    match spec_find_course(m, key) {
        Some(i) => m.update(i, (m[i].0, sel)),
        None => m.push((key, sel)),
    }
}

/// The selections filed from a list of sections, one at a time.
pub open spec fn spec_selected_of(secs: Seq<Section>) -> Seq<(ThinCourse, Selection)>
    decreases secs.len(),
{
    if secs.len() == 0 {
        Seq::empty()
    } else {
        spec_apply_section(spec_selected_of(secs.drop_last()), secs.last())
    }
}

impl SelectedCourses {
    /// Files a list of chosen sections under their courses, keeping
    /// the order in which courses first appear. Every section must
    /// carry a classifiable component type.
    pub fn from_sections(value: &Vec<Section>) -> (r: SelectedCourses)
        requires
            forall|i: int|
                0 <= i < value@.len() ==> (#[trigger] value@[i].spec_get_type()) is Some,
        ensures
            r.courses@ == spec_selected_of(value@),
            distinct_courses(r.courses@),
    {
        proof {
            lemma_selected_of_distinct(value@);
        }
        let mut m: Vec<(ThinCourse, Selection)> = Vec::new();
        let mut i: usize = 0;
        proof {
            assert(value@.subrange(0, 0) =~= Seq::<Section>::empty());
        }
        while i < value.len()
            invariant
                i <= value@.len(),
                forall|k: int|
                    0 <= k < value@.len() ==> (#[trigger] value@[k].spec_get_type()) is Some,
                m@ == spec_selected_of(value@.subrange(0, i as int)),
            decreases value@.len() - i,
        {
            let s = &value[i];
            let ghost key = spec_course_key(*s);
            let mut j: usize = 0;
            while j < m.len() && !(m[j].0.subject_code == s.subject_code && m[j].0.course_code
                == s.course_code)
                invariant
                    j <= m@.len(),
                    forall|k: int| 0 <= k < j ==> !same_course_key(#[trigger] m@[k].0, key),
                    key == spec_course_key(*s),
                decreases m@.len() - j,
            {
                j = j + 1;
            }
            let ts = ThinSection { crn: s.crn };
            let base = if j < m.len() {
                proof {
                    lemma_find_course_some(m@, key, j as int);
                }
                m[j].1
            } else {
                proof {
                    lemma_find_course_none(m@, key);
                }
                Selection { lecture: ThinSection { crn: 0 }, lab: None, tutorial: None }
            };
            let sel = match s.get_type() {
                Some(SectionType::Lecture) => Selection {
                    lecture: ts,
                    lab: base.lab,
                    tutorial: base.tutorial,
                },
                Some(SectionType::Lab) => Selection {
                    lecture: base.lecture,
                    lab: Some(ts),
                    tutorial: base.tutorial,
                },
                Some(SectionType::Tutorial) => Selection {
                    lecture: base.lecture,
                    lab: base.lab,
                    tutorial: Some(ts),
                },
                None => base,
            };
            let ghost m_old = m@;
            if j < m.len() {
                let old_key = m[j].0.clone();
                m.set(j, (old_key, sel));
                proof {
                    assert(m@ =~= m_old.update(j as int, (m_old[j as int].0, sel)));
                }
            } else {
                m.push(
                    (
                        ThinCourse {
                            subject_code: s.subject_code.clone(),
                            course_code: s.course_code.clone(),
                        },
                        sel,
                    ),
                );
                proof {
                    assert(m@ =~= m_old.push((key, sel)));
                }
            }
            proof {
                let pre = value@.subrange(0, i as int);
                let nxt = value@.subrange(0, i + 1 as int);
                assert(nxt.drop_last() =~= pre);
                assert(nxt.last() == value@[i as int]);
            }
            i = i + 1;
        }
        proof {
            assert(value@.subrange(0, value@.len() as int) =~= value@);
        }
        SelectedCourses { courses: m }
    }
}

/// One named schedule: its label, term, and selected courses.
#[derive(Clone, Debug)]
pub struct Schedule {
    pub name: String,
    pub term: Term,
    pub selected: SelectedCourses,
}

/// The path parameter that names a schedule in a request.
#[derive(Debug)]
pub struct SchedulePath {
    pub schedule_id: String,
}

/// A schedule together with its storage identifier.
#[derive(Clone, Debug)]
pub struct ScheduleWithId {
    pub schedule: Schedule,
    pub id: String,
}

/// All schedules a user holds.
#[derive(Debug)]
pub struct Schedules {
    pub schedules: Vec<ScheduleWithId>,
}

/// The flattening of every course's sections, in course order.
pub open spec fn all_sections(courses: Seq<Course>) -> Seq<Section>
    decreases courses.len(),
{
    if courses.len() == 0 {
        Seq::empty()
    } else {
        all_sections(courses.drop_last()) + courses.last().sections@
    }
}

/// The sections of `s` whose registration number appears in `crns`,
/// keeping their order.
pub open spec fn crn_filtered(s: Seq<Section>, crns: Seq<u64>) -> Seq<Section>
    decreases s.len(),
{
    if s.len() == 0 {
        Seq::empty()
    } else if crns.contains(s.last().crn) {
        crn_filtered(s.drop_last(), crns).push(s.last())
    } else {
        crn_filtered(s.drop_last(), crns)
    }
}

/// Whether a registration number appears in a list.
fn contains_crn(crns: &Vec<u64>, crn: u64) -> (r: bool)
    ensures
        r == crns@.contains(crn),
{
    let mut i: usize = 0;
    while i < crns.len()
        invariant
            i <= crns@.len(),
            forall|k: int| 0 <= k < i ==> crns@[k] != crn,
        decreases crns@.len() - i,
    {
        if crns[i] == crn {
            return true;
        }
        i = i + 1;
    }
    proof {
        if crns@.contains(crn) {
            let k = choose|k: int| 0 <= k < crns@.len() && crns@[k] == crn;
            assert(false);
        }
    }
    false
}

/// Picks out of all the courses' sections exactly the ones the user
/// has selected, in the order the store returned them.
pub fn selected_sections(courses: &[Course], selected: &SelectedCourses) -> (r: Vec<Section>)
    ensures
        same_sections(r@, crn_filtered(all_sections(courses@), spec_courses_crns(selected.courses@))),
{
    let crns = selected.crns();
    let mut r: Vec<Section> = Vec::new();
    let ghost mut done: Seq<Section> = Seq::empty();
    let mut ci: usize = 0;
    proof {
        assert(all_sections(courses@.subrange(0, 0)) =~= Seq::<Section>::empty());
        assert(crn_filtered(done, crns@) =~= Seq::<Section>::empty());
    }
    while ci < courses.len()
        invariant
            ci <= courses@.len(),
            crns@ == spec_courses_crns(selected.courses@),
            done == all_sections(courses@.subrange(0, ci as int)),
            same_sections(r@, crn_filtered(done, crns@)),
        decreases courses@.len() - ci,
    {
        let secs = &courses[ci].sections;
        let mut si: usize = 0;
        while si < secs.len()
            invariant
                ci < courses@.len(),
                si <= secs@.len(),
                secs == &courses@[ci as int].sections,
                crns@ == spec_courses_crns(selected.courses@),
                same_sections(r@, crn_filtered(done + secs@.subrange(0, si as int), crns@)),
            decreases secs@.len() - si,
        {
            let ghost seen = done + secs@.subrange(0, si as int);
            let ghost seen2 = done + secs@.subrange(0, si + 1 as int);
            proof {
                assert(seen2.drop_last() =~= seen);
                assert(seen2.last() == secs@[si as int]);
            }
            if contains_crn(&crns, secs[si].crn) {
                r.push(secs[si].clone());
            }
            si = si + 1;
        }
        proof {
            let pre = courses@.subrange(0, ci as int);
            let nxt = courses@.subrange(0, ci + 1 as int);
            assert(nxt.drop_last() =~= pre);
            assert(nxt.last() == courses@[ci as int]);
            assert(done + secs@.subrange(0, secs@.len() as int) =~= all_sections(nxt));
            done = done + secs@.subrange(0, secs@.len() as int);
        }
        ci = ci + 1;
    }
    proof {
        assert(courses@.subrange(0, courses@.len() as int) =~= courses@);
    }
    r
}

} // verus!
