//! Index of the relations of a `Problem` that the solver probes: teacher
//! qualifications, teacher blocks, room suitabilities and room blocks.

use vstd::prelude::*;

use crate::types::{Problem, RoomId, SubjectId, TeacherId, TimeBlockId};

verus! {

/// The relations of a problem, as plain (owner, target) pairs in input
/// order.
pub struct Indexed {
    /// (teacher, subject) per qualification.
    pub teacher_subject: Vec<(u128, u128)>,
    /// (teacher, time block) per teacher block.
    pub teacher_blocked: Vec<(u128, u128)>,
    /// (room, subject) per suitability entry.
    pub room_subject: Vec<(u128, u128)>,
    /// (room, time block) per room block.
    pub room_blocked: Vec<(u128, u128)>,
}

/// The pair list of the problem's teacher qualifications.
pub open spec fn qualification_pairs(problem: Problem) -> Seq<(u128, u128)> {
    problem.teacher_qualifications@.map_values(|q: crate::types::TeacherQualification| (q.teacher_id.0, q.subject_id.0))
}

/// The pair list of the problem's teacher blocks.
pub open spec fn teacher_block_pairs(problem: Problem) -> Seq<(u128, u128)> {
    problem.teacher_blocked_times@.map_values(|b: crate::types::TeacherBlockedTime| (b.teacher_id.0, b.time_block_id.0))
}

/// The pair list of the problem's room suitabilities.
pub open spec fn suitability_pairs(problem: Problem) -> Seq<(u128, u128)> {
    problem.room_subject_suitabilities@.map_values(|s: crate::types::RoomSubjectSuitability| (s.room_id.0, s.subject_id.0))
}

/// The pair list of the problem's room blocks.
pub open spec fn room_block_pairs(problem: Problem) -> Seq<(u128, u128)> {
    problem.room_blocked_times@.map_values(|b: crate::types::RoomBlockedTime| (b.room_id.0, b.time_block_id.0))
}

/// Some pair of `s` has owner `a`.
pub open spec fn has_owner(s: Seq<(u128, u128)>, a: u128) -> bool {
    exists|i: int| 0 <= i < s.len() && #[trigger] s[i].0 == a
}

/// Room `room` suits subject `subject` under suitability pairs `s`: the room
/// lists no suitability at all, or lists the subject.
pub open spec fn suits(s: Seq<(u128, u128)>, room: u128, subject: u128) -> bool {
    !has_owner(s, room) || s.contains((room, subject))
}

impl Indexed {
    /// The index holds exactly the relations of `problem`.
    pub open spec fn indexes(&self, problem: Problem) -> bool {
        &&& self.teacher_subject@ == qualification_pairs(problem)
        &&& self.teacher_blocked@ == teacher_block_pairs(problem)
        &&& self.room_subject@ == suitability_pairs(problem)
        &&& self.room_blocked@ == room_block_pairs(problem)
    }

    /// Index every relation of `problem`.
    pub fn new(problem: &Problem) -> (idx: Indexed)
        ensures
            idx.indexes(*problem),
    {
        let mut teacher_subject: Vec<(u128, u128)> = Vec::new();
        let mut i: usize = 0;
        while i < problem.teacher_qualifications.len()
            invariant
                i <= problem.teacher_qualifications@.len(),
                teacher_subject@ == qualification_pairs(*problem).take(i as int),
            decreases problem.teacher_qualifications@.len() - i,
        {
            let q = &problem.teacher_qualifications[i];
            teacher_subject.push((q.teacher_id.0, q.subject_id.0));
            i = i + 1;
            assert(teacher_subject@ =~= qualification_pairs(*problem).take(i as int));
        }
        assert(teacher_subject@ =~= qualification_pairs(*problem));
        let mut teacher_blocked: Vec<(u128, u128)> = Vec::new();
        let mut i: usize = 0;
        while i < problem.teacher_blocked_times.len()
            invariant
                i <= problem.teacher_blocked_times@.len(),
                teacher_blocked@ == teacher_block_pairs(*problem).take(i as int),
            decreases problem.teacher_blocked_times@.len() - i,
        {
            let b = &problem.teacher_blocked_times[i];
            teacher_blocked.push((b.teacher_id.0, b.time_block_id.0));
            i = i + 1;
            assert(teacher_blocked@ =~= teacher_block_pairs(*problem).take(i as int));
        }
        assert(teacher_blocked@ =~= teacher_block_pairs(*problem));
        let mut room_subject: Vec<(u128, u128)> = Vec::new();
        let mut i: usize = 0;
        while i < problem.room_subject_suitabilities.len()
            invariant
                i <= problem.room_subject_suitabilities@.len(),
                room_subject@ == suitability_pairs(*problem).take(i as int),
            decreases problem.room_subject_suitabilities@.len() - i,
        {
            let s = &problem.room_subject_suitabilities[i];
            room_subject.push((s.room_id.0, s.subject_id.0));
            i = i + 1;
            assert(room_subject@ =~= suitability_pairs(*problem).take(i as int));
        }
        assert(room_subject@ =~= suitability_pairs(*problem));
        let mut room_blocked: Vec<(u128, u128)> = Vec::new();
        let mut i: usize = 0;
        while i < problem.room_blocked_times.len()
            invariant
                i <= problem.room_blocked_times@.len(),
                room_blocked@ == room_block_pairs(*problem).take(i as int),
            decreases problem.room_blocked_times@.len() - i,
        {
            let b = &problem.room_blocked_times[i];
            room_blocked.push((b.room_id.0, b.time_block_id.0));
            i = i + 1;
            assert(room_blocked@ =~= room_block_pairs(*problem).take(i as int));
        }
        assert(room_blocked@ =~= room_block_pairs(*problem));
        Indexed { teacher_subject, teacher_blocked, room_subject, room_blocked }
    }

    /// Teacher `teacher` holds a qualification for `subject`.
    pub fn teacher_qualified(&self, teacher: TeacherId, subject: SubjectId) -> (r: bool)
        ensures
            r == self.teacher_subject@.contains((teacher.0, subject.0)),
    {
        pair_listed(&self.teacher_subject, teacher.0, subject.0)
    }

    /// Teacher `teacher` is blocked at time block `tb`.
    pub fn teacher_blocked(&self, teacher: TeacherId, tb: TimeBlockId) -> (r: bool)
        ensures
            r == self.teacher_blocked@.contains((teacher.0, tb.0)),
    {
        pair_listed(&self.teacher_blocked, teacher.0, tb.0)
    }

    /// True when the room lists no suitability (it suits every subject) or
    /// lists `subject`.
    pub fn room_suits_subject(&self, room: RoomId, subject: SubjectId) -> (r: bool)
        ensures
            r == suits(self.room_subject@, room.0, subject.0),
    {
        let mut listed_any = false;
        let mut i: usize = 0;
        while i < self.room_subject.len()
            invariant
                i <= self.room_subject@.len(),
                listed_any == has_owner(self.room_subject@.take(i as int), room.0),
                forall|k: int| 0 <= k < i ==> self.room_subject@[k] != (room.0, subject.0),
            decreases self.room_subject@.len() - i,
        {
            let e = self.room_subject[i];
            if e.0 == room.0 {
                if e.1 == subject.0 {
                    assert(self.room_subject@[i as int] == (room.0, subject.0));
                    return true;
                }
                listed_any = true;
            }
            proof {
                let t = self.room_subject@.take(i + 1);
                if has_owner(self.room_subject@.take(i as int), room.0) {
                    let j = choose|j: int| 0 <= j < i && #[trigger] self.room_subject@.take(i as int)[j].0 == room.0;
                    assert(t[j].0 == room.0);
                }
                if e.0 == room.0 {
                    assert(t[i as int].0 == room.0);
                }
                if has_owner(t, room.0) && e.0 != room.0 {
                    let j = choose|j: int| 0 <= j < i + 1 && #[trigger] t[j].0 == room.0;
                    assert(self.room_subject@.take(i as int)[j].0 == room.0);
                }
            }
            i = i + 1;
        }
        proof {
            assert(self.room_subject@.take(i as int) =~= self.room_subject@);
        }
        !listed_any
    }

    /// Room `room` is blocked at time block `tb`.
    pub fn room_blocked(&self, room: RoomId, tb: TimeBlockId) -> (r: bool)
        ensures
            r == self.room_blocked@.contains((room.0, tb.0)),
    {
        pair_listed(&self.room_blocked, room.0, tb.0)
    }
}

/// Whether the pair `(a, b)` occurs in `pairs`.
fn pair_listed(pairs: &Vec<(u128, u128)>, a: u128, b: u128) -> (r: bool)
    ensures
        r == pairs@.contains((a, b)),
{
    let mut i: usize = 0;
    while i < pairs.len()
        invariant
            i <= pairs@.len(),
            forall|k: int| 0 <= k < i ==> pairs@[k] != (a, b),
        decreases pairs@.len() - i,
    {
        let e = pairs[i];
        if e.0 == a && e.1 == b {
            assert(pairs@[i as int] == (a, b));
            return true;
        }
        i = i + 1;
    }
    false
}

} // verus!
