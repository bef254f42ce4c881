//! The home-room repair move of the local search: move a one-hour lesson
//! into the home room its classes share, either into the free room or by
//! swapping rooms with the lesson that holds it, when the canonical score
//! passes the late-acceptance gate.

use vstd::prelude::*;

use crate::index::{suits, Indexed};
use crate::lahc::{apply_delta_spec, saturating_apply_delta};
use crate::lookup::{find_lesson, find_tb, lemma_class_index, lesson_index, tb_index};
use crate::score::{home_lookup, home_room_penalty_one_class, misses_home};
use crate::kempe::contains_lesson;
use crate::state::{set_contains, set_insert, set_remove, GreedyState};
use crate::types::{ConstraintWeights, Lesson, LessonId, Placement, Problem, RoomId, SchoolClass, SchoolClassId};

verus! {

/// Outcome of a home-room repair attempt.
pub enum RepairOutcome {
    /// Nothing changes.
    Rejected,
    /// The lesson moves into its free home room; the canonical score becomes
    /// `canonical`.
    MovedToFree { home: RoomId, canonical: u32 },
    /// The lesson takes its home room from the row at `partner`, which takes
    /// the lesson's old room; the canonical score becomes `canonical`.
    Swapped { home: RoomId, partner: usize, canonical: u32 },
}

/// The home room all of `cs` share: none when the list is empty or a class
/// is unknown, has no home room, or has another one than the first.
pub open spec fn shared_home(classes: Seq<SchoolClass>, cs: Seq<SchoolClassId>) -> Option<RoomId> {
    if cs.len() == 0 {
        None
    } else {
        match home_lookup(classes, cs[0]) {
            Some(Some(h)) => if forall|i: int| 0 <= i < cs.len() ==> #[trigger] home_lookup(classes, cs[i]) == Some(Some(h)) {
                Some(h)
            } else {
                None
            },
            _ => None,
        }
    }
}

/// Home-room penalty of class `c` in `room`.
pub open spec fn class_pen(classes: Seq<SchoolClass>, c: SchoolClassId, room: RoomId, w: ConstraintWeights) -> int {
    if w.prefer_home_room != 0 && misses_home(classes, c, room) {
        w.prefer_home_room as int
    } else {
        0
    }
}

/// Change of the home-room penalty of the classes `cs` when their lesson
/// moves from room `from` to room `to`.
pub open spec fn home_delta(
    classes: Seq<SchoolClass>,
    cs: Seq<SchoolClassId>,
    from: RoomId,
    to: RoomId,
    w: ConstraintWeights,
) -> int
    decreases cs.len(),
{
    if cs.len() == 0 {
        0
    } else {
        home_delta(classes, cs.drop_last(), from, to, w) + class_pen(classes, cs.last(), to, w) - class_pen(
            classes,
            cs.last(),
            from,
            w,
        )
    }
}

/// Index of the first row in `room` at block `tb`, or -1.
pub open spec fn first_in_room(ps: Seq<Placement>, room: RoomId, tb: crate::types::TimeBlockId) -> int
    decreases ps.len(),
{
    if ps.len() == 0 {
        -1
    } else if ps[0].room_id == room && ps[0].time_block_id == tb {
        0
    } else {
        let r = first_in_room(ps.drop_first(), room, tb);
        if r < 0 {
            -1
        } else {
            r + 1
        }
    }
}

/// The lesson of a row.
pub open spec fn row_lesson(ls: Seq<Lesson>, p: Placement) -> Lesson {
    ls[lesson_index(ls, p.lesson_id)]
}

/// What the repair of row `i` does, with the late-acceptance threshold
/// `threshold`.
pub open spec fn home_repair_outcome(
    problem: Problem,
    idx: Indexed,
    i: int,
    w: ConstraintWeights,
    ps: Seq<Placement>,
    used_room: Seq<(u128, u128)>,
    canonical: u32,
    pinned: Seq<LessonId>,
    threshold: u32,
) -> RepairOutcome {
    if i < 0 || i >= ps.len() {
        RepairOutcome::Rejected
    } else {
        let p = ps[i];
        let l = row_lesson(problem.lessons@, p);
        let classes = problem.school_classes@;
        if lesson_index(problem.lessons@, p.lesson_id) < 0 || l.preferred_block_size > 1 || l.lesson_group_id is Some || pinned.contains(p.lesson_id) {
            RepairOutcome::Rejected
        } else {
            match shared_home(classes, l.school_class_ids@) {
                None => RepairOutcome::Rejected,
                Some(home) => {
                    if p.room_id == home || tb_index(problem.time_blocks@, p.time_block_id) < 0
                        || idx.room_blocked@.contains((home.0, p.time_block_id.0)) {
                        RepairOutcome::Rejected
                    } else {
                        let p_delta = home_delta(classes, l.school_class_ids@, p.room_id, home, w);
                        if !used_room.contains((home.0, p.time_block_id.0)) {
                            let nc = apply_delta_spec(canonical, p_delta as i64);
                            if !suits(idx.room_subject@, home.0, l.subject_id.0) || nc > threshold {
                                RepairOutcome::Rejected
                            } else {
                                RepairOutcome::MovedToFree { home, canonical: nc as u32 }
                            }
                        } else {
                            let qi = first_in_room(ps, home, p.time_block_id);
                            if qi < 0 || qi == i || lesson_index(problem.lessons@, ps[qi].lesson_id) < 0 {
                                RepairOutcome::Rejected
                            } else {
                                let q = ps[qi];
                                let ql = row_lesson(problem.lessons@, q);
                                let nc = apply_delta_spec(
                                    canonical,
                                    (p_delta + home_delta(classes, ql.school_class_ids@, q.room_id, p.room_id, w)) as i64,
                                );
                                if pinned.contains(q.lesson_id) || ql.lesson_group_id is Some || ql.preferred_block_size
                                    > 1 || !suits(idx.room_subject@, p.room_id.0, ql.subject_id.0) || !suits(
                                    idx.room_subject@,
                                    home.0,
                                    l.subject_id.0,
                                ) || nc > threshold {
                                    RepairOutcome::Rejected
                                } else {
                                    RepairOutcome::Swapped { home, partner: qi as usize, canonical: nc as u32 }
                                }
                            }
                        }
                    }
                }
            }
        }
    }
}

/// The row with its room replaced.
pub open spec fn with_room(p: Placement, room: RoomId) -> Placement {
    Placement { room_id: room, ..p }
}

/// What the repair of row `i` needs to sum its home-room deltas in `i64`:
/// the row's lesson and the lesson of the row holding the shared home room
/// at its block (when they resolve) list at most 2^31 - 1 classes each, and
/// the two deltas add up within `i64`.
pub open spec fn repair_ready(problem: Problem, ps: Seq<Placement>, i: int, w: ConstraintWeights) -> bool {
    0 <= i < ps.len() && lesson_index(problem.lessons@, ps[i].lesson_id) >= 0 ==> {
        let l = row_lesson(problem.lessons@, ps[i]);
        let classes = problem.school_classes@;
        &&& l.school_class_ids@.len() <= 0x7fff_ffff
        &&& match shared_home(classes, l.school_class_ids@) {
            Some(home) => {
                let qi = first_in_room(ps, home, ps[i].time_block_id);
                0 <= qi < ps.len() && lesson_index(problem.lessons@, ps[qi].lesson_id) >= 0 ==> {
                    let ql = row_lesson(problem.lessons@, ps[qi]);
                    &&& ql.school_class_ids@.len() <= 0x7fff_ffff
                    &&& i64::MIN < home_delta(classes, l.school_class_ids@, ps[i].room_id, home, w) + home_delta(
                        classes,
                        ql.school_class_ids@,
                        ps[qi].room_id,
                        ps[i].room_id,
                        w,
                    ) <= i64::MAX
                }
            },
            None => true,
        }
    }
}

proof fn lemma_home_delta_bound(
    classes: Seq<SchoolClass>,
    cs: Seq<SchoolClassId>,
    from: RoomId,
    to: RoomId,
    w: ConstraintWeights,
)
    ensures
        -(cs.len() * 0x1_0000_0000) <= home_delta(classes, cs, from, to, w) <= cs.len() * 0x1_0000_0000,
    decreases cs.len(),
{
    if cs.len() > 0 {
        lemma_home_delta_bound(classes, cs.drop_last(), from, to, w);
        assert((cs.len() - 1) * 0x1_0000_0000 + 0x1_0000_0000 == cs.len() * 0x1_0000_0000) by (nonlinear_arith);
    }
}

fn shared_home_exec(classes: &Vec<SchoolClass>, cs: &Vec<SchoolClassId>) -> (r: Option<RoomId>)
    ensures
        r == shared_home(classes@, cs@),
{
    let mut home: Option<RoomId> = None;
    let mut i: usize = 0;
    while i < cs.len()
        invariant
            i <= cs@.len(),
            i == 0 <==> home is None,
            match home {
                Some(h) => home_lookup(classes@, cs@[0]) == Some(Some(h)) && forall|j: int|
                    0 <= j < i ==> #[trigger] home_lookup(classes@, cs@[j]) == Some(Some(h)),
                None => true,
            },
        decreases cs@.len() - i,
    {
        let c = cs[i];
        let found = crate::lookup::find_class(classes, c);
        proof {
            lemma_class_index(classes@, c);
        }
        match found {
            Some(ci) => match classes[ci].home_room_id {
                Some(h) => match home {
                    None => {
                        home = Some(h);
                    },
                    Some(existing) => {
                        if existing != h {
                            proof {
                                assert(home_lookup(classes@, cs@[i as int]) == Some(Some(h)));
                            }
                            return None;
                        }
                    },
                },
                None => {
                    proof {
                        assert(home_lookup(classes@, cs@[i as int]) == Some(None::<RoomId>));
                        if i > 0 {
                            assert(home_lookup(classes@, cs@[0]) is Some);
                        }
                    }
                    return None;
                },
            },
            None => {
                proof {
                    assert(home_lookup(classes@, cs@[i as int]) is None);
                }
                return None;
            },
        }
        i = i + 1;
    }
    home
}

pub(crate) fn home_delta_exec(
    classes: &Vec<SchoolClass>,
    cs: &Vec<SchoolClassId>,
    from: RoomId,
    to: RoomId,
    w: &ConstraintWeights,
) -> (d: i64)
    requires
        cs@.len() <= 0x7fff_ffff,
    ensures
        d == home_delta(classes@, cs@, from, to, *w),
        -(cs@.len() * 0x1_0000_0000) <= d <= cs@.len() * 0x1_0000_0000,
{
    let mut d: i64 = 0;
    let mut i: usize = 0;
    while i < cs.len()
        invariant
            i <= cs@.len(),
            cs@.len() <= 0x7fff_ffff,
            d == home_delta(classes@, cs@.take(i as int), from, to, *w),
            -(i * 0x1_0000_0000) <= d <= i * 0x1_0000_0000,
        decreases cs@.len() - i,
    {
        proof {
            assert(cs@.take(i + 1).drop_last() =~= cs@.take(i as int));
            assert(cs@.take(i + 1).last() == cs@[i as int]);
            assert(i * 0x1_0000_0000 + 0x1_0000_0000 == (i + 1) * 0x1_0000_0000) by (nonlinear_arith);
            assert((i + 1) * 0x1_0000_0000 <= 0x7fff_ffff * 0x1_0000_0000) by (nonlinear_arith)
                requires
                    i + 1 <= 0x7fff_ffff,
            ;
        }
        let pre = home_room_penalty_one_class(cs[i], classes, from, w);
        let post = home_room_penalty_one_class(cs[i], classes, to, w);
        d = d + (post as i64) - (pre as i64);
        i = i + 1;
    }
    proof {
        assert(cs@.take(cs@.len() as int) =~= cs@);
    }
    d
}

fn first_in_room_exec(ps: &Vec<Placement>, room: RoomId, tb: crate::types::TimeBlockId) -> (r: Option<usize>)
    ensures
        match r {
            Some(j) => j as int == first_in_room(ps@, room, tb) && j < ps@.len(),
            None => first_in_room(ps@, room, tb) < 0,
        },
{
    proof {
        assert(ps@.subrange(0, ps@.len() as int) =~= ps@);
    }
    let mut j: usize = 0;
    while j < ps.len()
        invariant
            j <= ps@.len(),
            first_in_room(ps@, room, tb) == if first_in_room(ps@.subrange(j as int, ps@.len() as int), room, tb) < 0 {
                -1
            } else {
                first_in_room(ps@.subrange(j as int, ps@.len() as int), room, tb) + j
            },
        decreases ps@.len() - j,
    {
        proof {
            let rest = ps@.subrange(j as int, ps@.len() as int);
            assert(rest[0] == ps@[j as int]);
            assert(rest.drop_first() =~= ps@.subrange(j + 1, ps@.len() as int));
        }
        if ps[j].room_id == room && ps[j].time_block_id == tb {
            return Some(j);
        }
        j = j + 1;
    }
    None
}


/// The placements and bookkeeping after the outcome: unchanged when
/// rejected; otherwise the row takes its home room (and the partner the
/// row's old room), the room bookings follow a move into a free room, and
/// the canonical score takes its new value.
pub open spec fn repair_effect(
    outcome: RepairOutcome,
    i: int,
    ops: Seq<Placement>,
    nps: Seq<Placement>,
    os: GreedyState,
    ns: GreedyState,
) -> bool {
    &&& ns.used_teacher == os.used_teacher
    &&& ns.used_class == os.used_class
    &&& ns.class_positions == os.class_positions
    &&& ns.teacher_positions == os.teacher_positions
    &&& ns.hours_by_teacher == os.hours_by_teacher
    &&& ns.locked_room == os.locked_room
    &&& ns.subject_hours_by_class_day == os.subject_hours_by_class_day
    &&& ns.lessons_by_class_day == os.lessons_by_class_day
    &&& ns.class_subject_teacher == os.class_subject_teacher
    &&& ns.search_score_slice == os.search_score_slice
    &&& ns.soft_pinned_blocks == os.soft_pinned_blocks
    &&& match outcome {
        RepairOutcome::Rejected => nps == ops && ns.used_room == os.used_room && ns.canonical_score == os.canonical_score,
        RepairOutcome::MovedToFree { home, canonical } => {
            &&& nps == ops.update(i, with_room(ops[i], home))
            &&& ns.used_room@.to_set() == os.used_room@.to_set().remove((ops[i].room_id.0, ops[i].time_block_id.0)).insert(
                (home.0, ops[i].time_block_id.0),
            )
            &&& ns.canonical_score == canonical
        },
        RepairOutcome::Swapped { home, partner, canonical } => {
            &&& nps == ops.update(i, with_room(ops[i], home)).update(partner as int, with_room(ops[partner as int], ops[i].room_id))
            &&& ns.used_room == os.used_room
            &&& ns.canonical_score == canonical
        },
    }
}

/// The late-acceptance threshold of iteration `iter`.
pub open spec fn lahc_threshold(lahc_list: Seq<u32>, iter: u64) -> u32 {
    lahc_list[(iter as usize) as int % lahc_list.len() as int]
}

/// Try to move row `placement_idx` into the home room its lesson's classes
/// share: a one-hour, ungrouped, unpinned lesson not yet in that room, with
/// the room not blocked at the row's block. When the room is free there,
/// the lesson moves in if the room suits its subject; when another row
/// holds it, the two swap rooms if neither is pinned, grouped or longer
/// than an hour and each room suits the other's subject. Either way the
/// canonical score moves by the change of the home-room penalties and the
/// move is accepted only when the result does not exceed the
/// late-acceptance threshold of iteration `iter`. Lessons resolve through
/// the problem's lessons, blocks through its time blocks and home rooms
/// through its classes.
pub fn try_home_room_repair_move(
    problem: &Problem,
    idx: &Indexed,
    placement_idx: usize,
    weights: &ConstraintWeights,
    placements: &mut Vec<Placement>,
    state: &mut GreedyState,
    pinned: &Vec<LessonId>,
    lahc_list: &[u32],
    iter: u64,
) -> (accepted: bool)
    requires
        lahc_list@.len() > 0,
        repair_ready(*problem, old(placements)@, placement_idx as int, *weights),
    ensures
        accepted == !(home_repair_outcome(
            *problem,
            *idx,
            placement_idx as int,
            *weights,
            old(placements)@,
            old(state).used_room@,
            old(state).canonical_score,
            pinned@,
            lahc_threshold(lahc_list@, iter),
        ) is Rejected),
        repair_effect(
            home_repair_outcome(
                *problem,
                *idx,
                placement_idx as int,
                *weights,
                old(placements)@,
                old(state).used_room@,
                old(state).canonical_score,
                pinned@,
                lahc_threshold(lahc_list@, iter),
            ),
            placement_idx as int,
            old(placements)@,
            final(placements)@,
            *old(state),
            *final(state),
        ),
        accepted ==> final(placements)@.len() == old(placements)@.len() && forall|k: int|
            0 <= k < final(placements)@.len() && (#[trigger] final(placements)@[k]).room_id != old(placements)@[k].room_id
                ==> suits(
                idx.room_subject@,
                final(placements)@[k].room_id.0,
                row_lesson(problem.lessons@, old(placements)@[k]).subject_id.0,
            ),
        accepted ==> {
            let ops = old(placements)@;
            let nps = final(placements)@;
            let i = placement_idx as int;
            let p = ops[i];
            let l = row_lesson(problem.lessons@, p);
            let home = nps[i].room_id;
            &&& 0 <= i < ops.len() && nps.len() == ops.len()
            &&& l.preferred_block_size <= 1 && l.lesson_group_id is None && !pinned@.contains(p.lesson_id)
            &&& shared_home(problem.school_classes@, l.school_class_ids@) == Some(home) && home != p.room_id
            &&& !idx.room_blocked@.contains((home.0, p.time_block_id.0))
            &&& final(state).canonical_score <= lahc_threshold(lahc_list@, iter)
            &&& forall|k: int|
                0 <= k < ops.len() ==> (#[trigger] nps[k]).lesson_id == ops[k].lesson_id && nps[k].time_block_id
                    == ops[k].time_block_id && nps[k].teacher_id == ops[k].teacher_id
            &&& forall|k: int|
                0 <= k < ops.len() && k != i && #[trigger] nps[k] != ops[k] ==> {
                    let ql = row_lesson(problem.lessons@, ops[k]);
                    &&& ops[k].room_id == home && ops[k].time_block_id == p.time_block_id && nps[k].room_id == p.room_id
                    &&& ql.preferred_block_size <= 1 && ql.lesson_group_id is None && !pinned@.contains(ops[k].lesson_id)
                }
            &&& (forall|k: int| 0 <= k < ops.len() && k != i ==> #[trigger] nps[k] == ops[k]) ==> !old(
                state,
            ).used_room@.contains((home.0, p.time_block_id.0))
        },
{
    let ghost ps0 = placements@;
    if placement_idx >= placements.len() {
        return false;
    }
    proof {
        lemma_repair_outcome_facts(
            *problem,
            *idx,
            placement_idx as int,
            *weights,
            placements@,
            state.used_room@,
            state.canonical_score,
            pinned@,
            lahc_threshold(lahc_list@, iter),
        );
    }
    let p = placements[placement_idx];
    let li = match find_lesson(&problem.lessons, p.lesson_id) {
        Some(li) => li,
        None => {
            return false;
        },
    };
    let lesson = &problem.lessons[li];
    if lesson.preferred_block_size > 1 {
        return false;
    }
    if lesson.lesson_group_id.is_some() {
        return false;
    }
    if contains_lesson(pinned, p.lesson_id) {
        return false;
    }
    let home_room = match shared_home_exec(&problem.school_classes, &lesson.school_class_ids) {
        Some(h) => h,
        None => {
            return false;
        },
    };
    if p.room_id == home_room {
        return false;
    }
    let ti = match find_tb(&problem.time_blocks, p.time_block_id) {
        Some(t) => t,
        None => {
            return false;
        },
    };
    let tb_id = problem.time_blocks[ti].id;
    if idx.room_blocked(home_room, tb_id) {
        return false;
    }
    let p_delta = home_delta_exec(&problem.school_classes, &lesson.school_class_ids, p.room_id, home_room, weights);
    let threshold = lahc_list[(iter as usize) % lahc_list.len()];
    let old_room = p.room_id;
    if !set_contains(&state.used_room, (home_room.0, tb_id.0)) {
        if !idx.room_suits_subject(home_room, lesson.subject_id) {
            return false;
        }
        let new_canonical = saturating_apply_delta(state.canonical_score, p_delta);
        if new_canonical > threshold {
            return false;
        }
        placements.set(
            placement_idx,
            Placement { lesson_id: p.lesson_id, time_block_id: p.time_block_id, room_id: home_room, teacher_id: p.teacher_id },
        );
        set_remove(&mut state.used_room, (old_room.0, tb_id.0));
        set_insert(&mut state.used_room, (home_room.0, tb_id.0));
        state.canonical_score = new_canonical;
        return true;
    }
    let q_idx = match first_in_room_exec(placements, home_room, tb_id) {
        Some(i) => {
            if i == placement_idx {
                return false;
            }
            i
        },
        None => {
            return false;
        },
    };
    let q = placements[q_idx];
    let qli = match find_lesson(&problem.lessons, q.lesson_id) {
        Some(i) => i,
        None => {
            return false;
        },
    };
    let q_lesson = &problem.lessons[qli];
    if contains_lesson(pinned, q.lesson_id) {
        return false;
    }
    if q_lesson.lesson_group_id.is_some() {
        return false;
    }
    if q_lesson.preferred_block_size > 1 {
        return false;
    }
    if !idx.room_suits_subject(old_room, q_lesson.subject_id) {
        return false;
    }
    if !idx.room_suits_subject(home_room, lesson.subject_id) {
        return false;
    }
    let q_delta = home_delta_exec(&problem.school_classes, &q_lesson.school_class_ids, q.room_id, old_room, weights);
    let total_delta = p_delta + q_delta;
    let new_canonical = saturating_apply_delta(state.canonical_score, total_delta);
    if new_canonical > threshold {
        return false;
    }
    placements.set(
        placement_idx,
        Placement { lesson_id: p.lesson_id, time_block_id: p.time_block_id, room_id: home_room, teacher_id: p.teacher_id },
    );
    placements.set(
        q_idx,
        Placement { lesson_id: q.lesson_id, time_block_id: q.time_block_id, room_id: old_room, teacher_id: q.teacher_id },
    );
    state.canonical_score = new_canonical;
    assert(placements@[q_idx as int] != ps0[q_idx as int]);
    true
}

/// An accepted home-room repair only puts lessons into rooms that suit
/// their subjects: a move into the free home room needs the home room to
/// suit the lesson's subject, and a room swap needs each room to suit the
/// other lesson's subject.
pub proof fn lemma_repair_uses_suitable_rooms(
    problem: Problem,
    idx: Indexed,
    i: int,
    w: ConstraintWeights,
    ps: Seq<Placement>,
    used_room: Seq<(u128, u128)>,
    canonical: u32,
    pinned: Seq<LessonId>,
    threshold: u32,
)
    requires
        ps.len() <= usize::MAX,
    ensures
        match home_repair_outcome(problem, idx, i, w, ps, used_room, canonical, pinned, threshold) {
            RepairOutcome::MovedToFree { home, .. } => suits(
                idx.room_subject@,
                home.0,
                row_lesson(problem.lessons@, ps[i]).subject_id.0,
            ),
            RepairOutcome::Swapped { home, partner, .. } => suits(
                idx.room_subject@,
                home.0,
                row_lesson(problem.lessons@, ps[i]).subject_id.0,
            ) && suits(idx.room_subject@, ps[i].room_id.0, row_lesson(problem.lessons@, ps[partner as int]).subject_id.0),
            RepairOutcome::Rejected => true,
        },
{
    if 0 <= i < ps.len() {
        match shared_home(problem.school_classes@, row_lesson(problem.lessons@, ps[i]).school_class_ids@) {
            Some(home) => {
                crate::laws::lemma_first_in_room_bound(ps, home, ps[i].time_block_id);
            },
            None => {},
        }
    }
}

proof fn lemma_first_in_room_hit(ps: Seq<Placement>, room: RoomId, tb: crate::types::TimeBlockId)
    ensures
        first_in_room(ps, room, tb) >= 0 ==> ({
            let r = first_in_room(ps, room, tb);
            r < ps.len() && ps[r].room_id == room && ps[r].time_block_id == tb
        }),
    decreases ps.len(),
{
    if ps.len() > 0 {
        lemma_first_in_room_hit(ps.drop_first(), room, tb);
    }
}

/// What an accepted home-room repair of row `i` does: the row holds a
/// one-hour, ungrouped, unpinned lesson whose classes share a home room
/// other than the row's, the home room is not blocked at the row's block
/// and the new canonical score is within the threshold. The row moves into
/// the free home room, or it swaps rooms with another row that holds the
/// home room at the same block, whose lesson is one-hour, ungrouped and
/// unpinned.
pub proof fn lemma_repair_outcome_facts(
    problem: Problem,
    idx: Indexed,
    i: int,
    w: ConstraintWeights,
    ps: Seq<Placement>,
    used_room: Seq<(u128, u128)>,
    canonical: u32,
    pinned: Seq<LessonId>,
    threshold: u32,
)
    requires
        ps.len() <= usize::MAX,
    ensures
        ({
            let p = ps[i];
            let l = row_lesson(problem.lessons@, p);
            let base = |home: RoomId, nc: u32| {
                &&& 0 <= i < ps.len()
                &&& l.preferred_block_size <= 1 && l.lesson_group_id is None && !pinned.contains(p.lesson_id)
                &&& shared_home(problem.school_classes@, l.school_class_ids@) == Some(home) && home != p.room_id
                &&& !idx.room_blocked@.contains((home.0, p.time_block_id.0))
                &&& nc <= threshold
            };
            match home_repair_outcome(problem, idx, i, w, ps, used_room, canonical, pinned, threshold) {
                RepairOutcome::MovedToFree { home, canonical: nc } => base(home, nc) && !used_room.contains(
                    (home.0, p.time_block_id.0),
                ),
                RepairOutcome::Swapped { home, partner, canonical: nc } => {
                    let q = ps[partner as int];
                    let ql = row_lesson(problem.lessons@, q);
                    &&& base(home, nc)
                    &&& 0 <= partner < ps.len() && partner != i
                    &&& q.room_id == home && q.time_block_id == p.time_block_id
                    &&& ql.preferred_block_size <= 1 && ql.lesson_group_id is None && !pinned.contains(q.lesson_id)
                },
                RepairOutcome::Rejected => true,
            }
        }),
{
    if 0 <= i < ps.len() {
        match shared_home(problem.school_classes@, row_lesson(problem.lessons@, ps[i]).school_class_ids@) {
            Some(home) => {
                lemma_first_in_room_hit(ps, home, ps[i].time_block_id);
            },
            None => {},
        }
    }
}

} // verus!
