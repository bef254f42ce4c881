//! Identifier lookups into a `Problem` and per-day grid facts.
//!
//! A lookup by identifier finds the last entity with that identifier, the
//! entry that survives when the entities are collected into a map keyed by
//! identifier.

use vstd::prelude::*;

use crate::types::{
    Lesson, LessonId, Problem, SchoolClass, SchoolClassId, Subject, SubjectId, TimeBlock,
    TimeBlockId,
};

verus! {

/// Index of the last time block with identifier `id`, or -1.
pub open spec fn tb_index(tbs: Seq<TimeBlock>, id: TimeBlockId) -> int
    decreases tbs.len(),
{
    if tbs.len() == 0 {
        -1
    } else if tbs.last().id == id {
        tbs.len() - 1
    } else {
        tb_index(tbs.drop_last(), id)
    }
}

/// Index of the last lesson with identifier `id`, or -1.
pub open spec fn lesson_index(ls: Seq<Lesson>, id: LessonId) -> int
    decreases ls.len(),
{
    if ls.len() == 0 {
        -1
    } else if ls.last().id == id {
        ls.len() - 1
    } else {
        lesson_index(ls.drop_last(), id)
    }
}

/// Index of the last subject with identifier `id`, or -1.
pub open spec fn subject_index(ss: Seq<Subject>, id: SubjectId) -> int
    decreases ss.len(),
{
    if ss.len() == 0 {
        -1
    } else if ss.last().id == id {
        ss.len() - 1
    } else {
        subject_index(ss.drop_last(), id)
    }
}

/// Index of the last class with identifier `id`, or -1.
pub open spec fn class_index(cs: Seq<SchoolClass>, id: SchoolClassId) -> int
    decreases cs.len(),
{
    if cs.len() == 0 {
        -1
    } else if cs.last().id == id {
        cs.len() - 1
    } else {
        class_index(cs.drop_last(), id)
    }
}

pub proof fn lemma_tb_index(tbs: Seq<TimeBlock>, id: TimeBlockId)
    ensures
        -1 <= tb_index(tbs, id) < tbs.len(),
        tb_index(tbs, id) >= 0 ==> tbs[tb_index(tbs, id)].id == id,
        tb_index(tbs, id) >= 0 ==> forall|j: int| tb_index(tbs, id) < j < tbs.len() ==> tbs[j].id != id,
        tb_index(tbs, id) < 0 ==> forall|j: int| 0 <= j < tbs.len() ==> tbs[j].id != id,
    decreases tbs.len(),
{
    if tbs.len() > 0 {
        let t = tbs.drop_last();
        lemma_tb_index(t, id);
        assert forall|j: int| 0 <= j < t.len() implies #[trigger] tbs[j] == t[j] by {}
    }
}

pub proof fn lemma_lesson_index(ls: Seq<Lesson>, id: LessonId)
    ensures
        -1 <= lesson_index(ls, id) < ls.len(),
        lesson_index(ls, id) >= 0 ==> ls[lesson_index(ls, id)].id == id,
        lesson_index(ls, id) >= 0 ==> forall|j: int| lesson_index(ls, id) < j < ls.len() ==> ls[j].id != id,
        lesson_index(ls, id) < 0 ==> forall|j: int| 0 <= j < ls.len() ==> ls[j].id != id,
    decreases ls.len(),
{
    if ls.len() > 0 {
        let t = ls.drop_last();
        lemma_lesson_index(t, id);
        assert forall|j: int| 0 <= j < t.len() implies #[trigger] ls[j] == t[j] by {}
    }
}

pub proof fn lemma_subject_index(ss: Seq<Subject>, id: SubjectId)
    ensures
        -1 <= subject_index(ss, id) < ss.len(),
        subject_index(ss, id) >= 0 ==> ss[subject_index(ss, id)].id == id,
        subject_index(ss, id) >= 0 ==> forall|j: int| subject_index(ss, id) < j < ss.len() ==> ss[j].id != id,
        subject_index(ss, id) < 0 ==> forall|j: int| 0 <= j < ss.len() ==> ss[j].id != id,
    decreases ss.len(),
{
    if ss.len() > 0 {
        let t = ss.drop_last();
        lemma_subject_index(t, id);
        assert forall|j: int| 0 <= j < t.len() implies #[trigger] ss[j] == t[j] by {}
    }
}

pub proof fn lemma_class_index(cs: Seq<SchoolClass>, id: SchoolClassId)
    ensures
        -1 <= class_index(cs, id) < cs.len(),
        class_index(cs, id) >= 0 ==> cs[class_index(cs, id)].id == id,
        class_index(cs, id) >= 0 ==> forall|j: int| class_index(cs, id) < j < cs.len() ==> cs[j].id != id,
        class_index(cs, id) < 0 ==> forall|j: int| 0 <= j < cs.len() ==> cs[j].id != id,
    decreases cs.len(),
{
    if cs.len() > 0 {
        let t = cs.drop_last();
        lemma_class_index(t, id);
        assert forall|j: int| 0 <= j < t.len() implies #[trigger] cs[j] == t[j] by {}
    }
}

/// Find the last time block with identifier `id`.
pub fn find_tb(tbs: &Vec<TimeBlock>, id: TimeBlockId) -> (r: Option<usize>)
    ensures
        match r {
            None => tb_index(tbs@, id) < 0,
            Some(k) => k as int == tb_index(tbs@, id) && k < tbs@.len() && tbs@[k as int].id == id,
        },
{
    proof {
        lemma_tb_index(tbs@, id);
    }
    let mut i = tbs.len();
    while i > 0
        invariant
            i <= tbs@.len(),
            forall|j: int| i <= j < tbs@.len() ==> tbs@[j].id != id,
            -1 <= tb_index(tbs@, id) < tbs@.len(),
            tb_index(tbs@, id) >= 0 ==> tbs@[tb_index(tbs@, id)].id == id,
            tb_index(tbs@, id) >= 0 ==> forall|j: int| tb_index(tbs@, id) < j < tbs@.len() ==> tbs@[j].id != id,
            tb_index(tbs@, id) < 0 ==> forall|j: int| 0 <= j < tbs@.len() ==> tbs@[j].id != id,
        decreases i,
    {
        if tbs[i - 1].id == id {
            return Some(i - 1);
        }
        i = i - 1;
    }
    None
}

/// Find the last lesson with identifier `id`.
pub fn find_lesson(ls: &Vec<Lesson>, id: LessonId) -> (r: Option<usize>)
    ensures
        match r {
            None => lesson_index(ls@, id) < 0,
            Some(k) => k as int == lesson_index(ls@, id) && k < ls@.len() && ls@[k as int].id == id,
        },
{
    proof {
        lemma_lesson_index(ls@, id);
    }
    let mut i = ls.len();
    while i > 0
        invariant
            i <= ls@.len(),
            forall|j: int| i <= j < ls@.len() ==> ls@[j].id != id,
            -1 <= lesson_index(ls@, id) < ls@.len(),
            lesson_index(ls@, id) >= 0 ==> ls@[lesson_index(ls@, id)].id == id,
            lesson_index(ls@, id) >= 0 ==> forall|j: int| lesson_index(ls@, id) < j < ls@.len() ==> ls@[j].id != id,
            lesson_index(ls@, id) < 0 ==> forall|j: int| 0 <= j < ls@.len() ==> ls@[j].id != id,
        decreases i,
    {
        if ls[i - 1].id == id {
            return Some(i - 1);
        }
        i = i - 1;
    }
    None
}

/// Find the last subject with identifier `id`.
pub fn find_subject(ss: &Vec<Subject>, id: SubjectId) -> (r: Option<usize>)
    ensures
        match r {
            None => subject_index(ss@, id) < 0,
            Some(k) => k as int == subject_index(ss@, id) && k < ss@.len() && ss@[k as int].id == id,
        },
{
    proof {
        lemma_subject_index(ss@, id);
    }
    let mut i = ss.len();
    while i > 0
        invariant
            i <= ss@.len(),
            forall|j: int| i <= j < ss@.len() ==> ss@[j].id != id,
            -1 <= subject_index(ss@, id) < ss@.len(),
            subject_index(ss@, id) >= 0 ==> ss@[subject_index(ss@, id)].id == id,
            subject_index(ss@, id) >= 0 ==> forall|j: int| subject_index(ss@, id) < j < ss@.len() ==> ss@[j].id != id,
            subject_index(ss@, id) < 0 ==> forall|j: int| 0 <= j < ss@.len() ==> ss@[j].id != id,
        decreases i,
    {
        if ss[i - 1].id == id {
            return Some(i - 1);
        }
        i = i - 1;
    }
    None
}

/// Find the last class with identifier `id`.
pub fn find_class(cs: &Vec<SchoolClass>, id: SchoolClassId) -> (r: Option<usize>)
    ensures
        match r {
            None => class_index(cs@, id) < 0,
            Some(k) => k as int == class_index(cs@, id) && k < cs@.len() && cs@[k as int].id == id,
        },
{
    proof {
        lemma_class_index(cs@, id);
    }
    let mut i = cs.len();
    while i > 0
        invariant
            i <= cs@.len(),
            forall|j: int| i <= j < cs@.len() ==> cs@[j].id != id,
            -1 <= class_index(cs@, id) < cs@.len(),
            class_index(cs@, id) >= 0 ==> cs@[class_index(cs@, id)].id == id,
            class_index(cs@, id) >= 0 ==> forall|j: int| class_index(cs@, id) < j < cs@.len() ==> cs@[j].id != id,
            class_index(cs@, id) < 0 ==> forall|j: int| 0 <= j < cs@.len() ==> cs@[j].id != id,
        decreases i,
    {
        if cs[i - 1].id == id {
            return Some(i - 1);
        }
        i = i - 1;
    }
    None
}

/// Largest position of any time block on day `d`, if the day has one.
pub open spec fn day_max_position(tbs: Seq<TimeBlock>, d: u8) -> Option<u8>
    decreases tbs.len(),
{
    if tbs.len() == 0 {
        None
    } else {
        let rest = day_max_position(tbs.drop_last(), d);
        let tb = tbs.last();
        if tb.day_of_week == d {
            match rest {
                None => Some(tb.position),
                Some(m) => Some(if m > tb.position { m } else { tb.position }),
            }
        } else {
            rest
        }
    }
}

/// The last position of `tb`'s day: the largest position of any block on
/// that day, falling back to `tb.position` itself.
pub open spec fn max_position_for(tbs: Seq<TimeBlock>, tb: TimeBlock) -> u8 {
    match day_max_position(tbs, tb.day_of_week) {
        Some(m) => m,
        None => tb.position,
    }
}

/// Largest position on day `d`, or `fallback` when the day has no block.
pub fn max_position_of_day(tbs: &Vec<TimeBlock>, d: u8, fallback: u8) -> (m: u8)
    ensures
        m == match day_max_position(tbs@, d) {
            Some(x) => x,
            None => fallback,
        },
{
    let mut best: Option<u8> = None;
    let mut i: usize = 0;
    while i < tbs.len()
        invariant
            i <= tbs@.len(),
            best == day_max_position(tbs@.take(i as int), d),
        decreases tbs@.len() - i,
    {
        let tb = tbs[i];
        proof {
            assert(tbs@.take(i + 1).drop_last() =~= tbs@.take(i as int));
        }
        if tb.day_of_week == d {
            best = match best {
                None => Some(tb.position),
                Some(m) => Some(if m > tb.position { m } else { tb.position }),
            };
        }
        i = i + 1;
    }
    proof {
        assert(tbs@.take(tbs@.len() as int) =~= tbs@);
    }
    match best {
        Some(x) => x,
        None => fallback,
    }
}

/// Number of days of the grid: one past the largest day of week (saturating
/// at 255), zero for an empty grid.
pub open spec fn days_spec(tbs: Seq<TimeBlock>) -> u8
    decreases tbs.len(),
{
    if tbs.len() == 0 {
        0
    } else {
        let rest = days_spec(tbs.drop_last());
        let d = tbs.last().day_of_week;
        let here: u8 = if d == 255 { 255 } else { (d + 1) as u8 };
        if here > rest { here } else { rest }
    }
}

/// Number of days of the grid, see `days_spec`.
pub fn day_count(problem: &Problem) -> (days: u8)
    ensures
        days == days_spec(problem.time_blocks@),
{
    let tbs = &problem.time_blocks;
    let mut days: u8 = 0;
    let mut i: usize = 0;
    while i < tbs.len()
        invariant
            i <= tbs@.len(),
            tbs == &problem.time_blocks,
            days == days_spec(tbs@.take(i as int)),
        decreases tbs@.len() - i,
    {
        proof {
            assert(tbs@.take(i + 1).drop_last() =~= tbs@.take(i as int));
        }
        let d = tbs[i].day_of_week;
        let here: u8 = if d == 255 { 255 } else { d + 1 };
        if here > days {
            days = here;
        }
        i = i + 1;
    }
    proof {
        assert(tbs@.take(tbs@.len() as int) =~= tbs@);
    }
    days
}

} // verus!
