//! The block Change move of the local search: move all hours of a lesson
//! that sit together on one day (a double period and longer) to a window of
//! consecutive lesson blocks, keeping one room for the whole block, and
//! accept it under the late-acceptance gate on the canonical score. A block
//! of one hour goes through the one-hour Change move.

use vstd::prelude::*;

use crate::change::{
    class_busy, class_busy_exec, count_or_zero, dest_lock, dest_lock_exec, first_subject_cap, first_subject_cap_exec,
    n1_accepts, n1_prior, n1_ready, n1_room, n1_slice_delta, clamp_u32, table_get_u8, try_change_move_n1,
};
use crate::index::{suits, Indexed};
use crate::kempe::contains_lesson;
use crate::score::{score_inputs_ok, score_solution, score_spec, slice_recompute, slice_spec, slice_sums_fit};
use crate::lahc::{lookup_slot, slot_table_get};
use crate::lookup::{find_lesson, find_tb, lesson_index, tb_index};
use crate::repair::row_lesson;
use crate::state::{
    count_dec_n, count_inc_n, fits_lock, fits_u8, lemma_mul_step, lemma_occ_prefix, lemma_occ_push, lock_dec_n, occ,
    change_applied, classes_cells, owner_cells, row_block, set_contains, set_insert, GreedyState,
};
use crate::vecmap::{add_u8, keys_unique, map_get, relock_add, sub_lock, sub_remove_u8};
use crate::partition::Partition;
use crate::positions::strictly_sorted;
use crate::types::{ConstraintWeights, Lesson, LessonId, Placement, Problem, Room, RoomId, SchoolClassId, SubjectId, TeacherId, TimeBlock, TimeBlockId,
    TimeBlockKind,
};

verus! {

/// Row `j` belongs to the block of lesson `lid` on day `day`: its block
/// resolves and lies on that day.
pub open spec fn in_block(ps: Seq<Placement>, tbs: Seq<TimeBlock>, lid: LessonId, day: u8, j: int) -> bool {
    &&& 0 <= j < ps.len()
    &&& ps[j].lesson_id == lid
    &&& tb_index(tbs, ps[j].time_block_id) >= 0
    &&& row_block(tbs, ps[j]).day_of_week == day
}

/// The position of the block a row sits in.
pub open spec fn row_pos(tbs: Seq<TimeBlock>, p: Placement) -> u8 {
    row_block(tbs, p).position
}

/// Number of block rows among the first `k` rows.
pub open spec fn block_count(ps: Seq<Placement>, tbs: Seq<TimeBlock>, lid: LessonId, day: u8, k: int) -> nat
    decreases k,
{
    if k <= 0 {
        0
    } else {
        block_count(ps, tbs, lid, day, k - 1) + if in_block(ps, tbs, lid, day, k - 1) {
            1nat
        } else {
            0nat
        }
    }
}

/// The block row of lowest position among the first `k` rows (the earliest
/// on a tie), -1 when there is none.
pub open spec fn block_first(ps: Seq<Placement>, tbs: Seq<TimeBlock>, lid: LessonId, day: u8, k: int) -> int
    decreases k,
{
    if k <= 0 {
        -1
    } else {
        let r = block_first(ps, tbs, lid, day, k - 1);
        if in_block(ps, tbs, lid, day, k - 1) && (r < 0 || row_pos(tbs, ps[k - 1]) < row_pos(tbs, ps[r])) {
            k - 1
        } else {
            r
        }
    }
}

/// The block rows form one run of `n` hours: there are `n` of them, no two
/// at the same position, and all within `n` positions of the lowest.
pub open spec fn block_run(ps: Seq<Placement>, tbs: Seq<TimeBlock>, lid: LessonId, day: u8, n: nat) -> bool {
    let f = block_first(ps, tbs, lid, day, ps.len() as int);
    &&& block_count(ps, tbs, lid, day, ps.len() as int) == n
    &&& forall|a: int, b: int|
        #![trigger in_block(ps, tbs, lid, day, a), in_block(ps, tbs, lid, day, b)]
        in_block(ps, tbs, lid, day, a) && in_block(ps, tbs, lid, day, b) && a != b ==> row_pos(tbs, ps[a]) != row_pos(
            tbs,
            ps[b],
        )
    &&& forall|a: int| #[trigger] in_block(ps, tbs, lid, day, a) ==> row_pos(tbs, ps[a]) < row_pos(tbs, ps[f]) + n
}

/// Two block rows sit at the last position of the day, 255; ordering the
/// rows by position and stepping from one to the next would overflow.
pub open spec fn block_tops_out(ps: Seq<Placement>, tbs: Seq<TimeBlock>, lid: LessonId, day: u8) -> bool {
    exists|a: int, b: int|
        #![trigger in_block(ps, tbs, lid, day, a), in_block(ps, tbs, lid, day, b)]
        in_block(ps, tbs, lid, day, a) && in_block(ps, tbs, lid, day, b) && a != b && row_pos(tbs, ps[a]) == 255
            && row_pos(tbs, ps[b]) == 255
}

/// The blocks the block rows sit in.
pub open spec fn block_src_set(ps: Seq<Placement>, tbs: Seq<TimeBlock>, lid: LessonId, day: u8) -> Set<u128> {
    Set::new(|b: u128| exists|j: int| #[trigger] in_block(ps, tbs, lid, day, j) && ps[j].time_block_id.0 == b)
}

proof fn lemma_block_first(ps: Seq<Placement>, tbs: Seq<TimeBlock>, lid: LessonId, day: u8, k: int)
    requires
        0 <= k <= ps.len(),
    ensures
        block_count(ps, tbs, lid, day, k) <= k,
        block_count(ps, tbs, lid, day, k) == 0 <==> block_first(ps, tbs, lid, day, k) == -1,
        block_first(ps, tbs, lid, day, k) == -1 ==> forall|j: int| 0 <= j < k ==> !in_block(ps, tbs, lid, day, j),
        block_first(ps, tbs, lid, day, k) != -1 ==> {
            let f = block_first(ps, tbs, lid, day, k);
            &&& 0 <= f < k
            &&& in_block(ps, tbs, lid, day, f)
            &&& forall|j: int| 0 <= j < k && #[trigger] in_block(ps, tbs, lid, day, j) ==> row_pos(tbs, ps[f]) <= row_pos(tbs, ps[j])
        },
    decreases k,
{
    if k > 0 {
        lemma_block_first(ps, tbs, lid, day, k - 1);
    }
}

/// The block rows of lesson `lid` on day `day` in row order, their
/// positions, and the row of lowest position.
fn scan_block(tbs: &Vec<TimeBlock>, ps: &Vec<Placement>, lid: LessonId, day: u8) -> (r: (Vec<usize>, Vec<u8>, Option<usize>))
    ensures
        r.0@.len() == r.1@.len(),
        r.0@.len() == block_count(ps@, tbs@, lid, day, ps@.len() as int),
        forall|k: int|
            0 <= k < r.0@.len() ==> in_block(ps@, tbs@, lid, day, #[trigger] r.0@[k] as int) && r.1@[k] == row_pos(
                tbs@,
                ps@[r.0@[k] as int],
            ),
        forall|a: int, b: int| 0 <= a < b < r.0@.len() ==> r.0@[a] < r.0@[b],
        forall|j: int| #[trigger] in_block(ps@, tbs@, lid, day, j) ==> exists|k: int| 0 <= k < r.0@.len() && r.0@[k] == j,
        match r.2 {
            None => block_first(ps@, tbs@, lid, day, ps@.len() as int) == -1,
            Some(f) => f as int == block_first(ps@, tbs@, lid, day, ps@.len() as int),
        },
{
    let mut rows: Vec<usize> = Vec::new();
    let mut poss: Vec<u8> = Vec::new();
    let mut first: Option<usize> = None;
    let mut first_pos: u8 = 0;
    let mut i: usize = 0;
    while i < ps.len()
        invariant
            i <= ps@.len(),
            rows@.len() == poss@.len(),
            rows@.len() == block_count(ps@, tbs@, lid, day, i as int),
            forall|k: int|
                0 <= k < rows@.len() ==> in_block(ps@, tbs@, lid, day, #[trigger] rows@[k] as int) && rows@[k] < i
                    && poss@[k] == row_pos(tbs@, ps@[rows@[k] as int]),
            forall|a: int, b: int| 0 <= a < b < rows@.len() ==> rows@[a] < rows@[b],
            forall|j: int|
                0 <= j < i && #[trigger] in_block(ps@, tbs@, lid, day, j) ==> exists|k: int|
                    0 <= k < rows@.len() && rows@[k] == j,
            match first {
                None => block_first(ps@, tbs@, lid, day, i as int) == -1,
                Some(f) => f as int == block_first(ps@, tbs@, lid, day, i as int) && f < i && first_pos == row_pos(
                    tbs@,
                    ps@[f as int],
                ),
            },
        decreases ps@.len() - i,
    {
        let p = ps[i];
        if p.lesson_id == lid {
            match find_tb(tbs, p.time_block_id) {
                Some(t) => {
                    if tbs[t].day_of_week == day {
                        assert(in_block(ps@, tbs@, lid, day, i as int));
                        let pos = tbs[t].position;
                        let ghost old_rows = rows@;
                        rows.push(i);
                        poss.push(pos);
                        proof {
                            assert forall|j: int|
                                0 <= j < i + 1 && #[trigger] in_block(ps@, tbs@, lid, day, j) implies exists|k: int|
                                0 <= k < rows@.len() && rows@[k] == j by {
                                if j < i {
                                    let k = choose|k: int| 0 <= k < old_rows.len() && old_rows[k] == j;
                                    assert(rows@[k] == j);
                                } else {
                                    assert(rows@[old_rows.len() as int] == j);
                                }
                            }
                        }
                        let replace = match first {
                            None => true,
                            Some(_) => pos < first_pos,
                        };
                        if replace {
                            first = Some(i);
                            first_pos = pos;
                        }
                    }
                },
                None => {},
            }
        }
        i = i + 1;
    }
    (rows, poss, first)
}

/// The scanned positions form one run of `n` from `low`: `n` of them,
/// pairwise distinct, all below `low + n`.
pub open spec fn run_spec(poss: Seq<u8>, low: u8, n: nat) -> bool {
    &&& poss.len() == n
    &&& forall|a: int, b: int| 0 <= a < b < poss.len() ==> poss[a] != poss[b]
    &&& forall|a: int| 0 <= a < poss.len() ==> poss[a] < low + n
}

fn run_ok(poss: &Vec<u8>, low: u8, n: u8) -> (b: bool)
    ensures
        b == run_spec(poss@, low, n as nat),
{
    if poss.len() != n as usize {
        return false;
    }
    let mut a: usize = 0;
    while a < poss.len()
        invariant
            a <= poss@.len(),
            forall|x: int, y: int| 0 <= x < y < poss@.len() && x < a ==> poss@[x] != poss@[y],
            forall|x: int| 0 <= x < a ==> poss@[x] < low + n,
        decreases poss@.len() - a,
    {
        if poss[a] as u16 >= low as u16 + n as u16 {
            return false;
        }
        let mut b: usize = a + 1;
        while b < poss.len()
            invariant
                a < b <= poss@.len(),
                forall|y: int| a < y < b ==> poss@[a as int] != poss@[y],
            decreases poss@.len() - b,
        {
            if poss[a] == poss[b] {
                return false;
            }
            b = b + 1;
        }
        a = a + 1;
    }
    true
}

/// With the rows and positions of a scan, the run check on the positions
/// is the run property of the block rows.
proof fn lemma_run_iff(
    ps: Seq<Placement>,
    tbs: Seq<TimeBlock>,
    lid: LessonId,
    day: u8,
    rows: Seq<usize>,
    poss: Seq<u8>,
    n: nat,
)
    requires
        rows.len() == poss.len(),
        rows.len() == block_count(ps, tbs, lid, day, ps.len() as int),
        forall|k: int|
            0 <= k < rows.len() ==> in_block(ps, tbs, lid, day, #[trigger] rows[k] as int) && poss[k] == row_pos(
                tbs,
                ps[rows[k] as int],
            ),
        forall|a: int, b: int| 0 <= a < b < rows.len() ==> rows[a] < rows[b],
        forall|j: int| #[trigger] in_block(ps, tbs, lid, day, j) ==> exists|k: int| 0 <= k < rows.len() && rows[k] == j,
    ensures
        block_run(ps, tbs, lid, day, n) == run_spec(
            poss,
            row_pos(tbs, ps[block_first(ps, tbs, lid, day, ps.len() as int)]),
            n,
        ),
{
    let f = block_first(ps, tbs, lid, day, ps.len() as int);
    let low = row_pos(tbs, ps[f]);
    if block_run(ps, tbs, lid, day, n) {
        assert forall|a: int, b: int| 0 <= a < b < poss.len() implies poss[a] != poss[b] by {
            assert(in_block(ps, tbs, lid, day, rows[a] as int));
            assert(in_block(ps, tbs, lid, day, rows[b] as int));
        }
        assert forall|a: int| 0 <= a < poss.len() implies poss[a] < low + n by {
            assert(in_block(ps, tbs, lid, day, rows[a] as int));
        }
    }
    if run_spec(poss, low, n) {
        assert forall|a: int, b: int|
            #![trigger in_block(ps, tbs, lid, day, a), in_block(ps, tbs, lid, day, b)]
            in_block(ps, tbs, lid, day, a) && in_block(ps, tbs, lid, day, b) && a != b implies row_pos(tbs, ps[a])
            != row_pos(tbs, ps[b]) by {
            let ka = choose|k: int| 0 <= k < rows.len() && rows[k] == a;
            let kb = choose|k: int| 0 <= k < rows.len() && rows[k] == b;
            assert(in_block(ps, tbs, lid, day, rows[ka] as int));
            assert(in_block(ps, tbs, lid, day, rows[kb] as int));
            if ka < kb {
                assert(poss[ka] != poss[kb]);
            } else {
                assert(poss[kb] != poss[ka]);
            }
        }
        assert forall|a: int| #[trigger] in_block(ps, tbs, lid, day, a) implies row_pos(tbs, ps[a]) < low + n by {
            let ka = choose|k: int| 0 <= k < rows.len() && rows[k] == a;
            assert(in_block(ps, tbs, lid, day, rows[ka] as int));
        }
    }
}

/// The block at offset `k` of the window starting at `start` on day `d`:
/// none past position 255 or where the slot table has no entry.
pub open spec fn dest_slot(slots: Seq<((u8, u8), TimeBlockId)>, d: u8, start: u8, k: int) -> Option<TimeBlockId> {
    if start + k > 255 {
        None
    } else {
        slot_table_get(slots, (d, (start + k) as u8))
    }
}

/// Every offset `0 .. n` of the window has a block.
pub open spec fn dest_ok(slots: Seq<((u8, u8), TimeBlockId)>, d: u8, start: u8, n: nat) -> bool {
    forall|k: int| 0 <= k < n ==> (#[trigger] dest_slot(slots, d, start, k)) is Some
}

/// The blocks of the window, in order.
pub open spec fn window(slots: Seq<((u8, u8), TimeBlockId)>, d: u8, start: u8, n: nat) -> Seq<TimeBlockId> {
    Seq::new(n, |k: int| dest_slot(slots, d, start, k)->0)
}

/// The identifiers of a list of blocks, as a set.
pub open spec fn blocks_of(bs: Seq<TimeBlockId>) -> Set<u128> {
    Set::new(|b: u128| exists|k: int| 0 <= k < bs.len() && (#[trigger] bs[k]).0 == b)
}

/// The window's blocks, or none when some offset has no block.
fn dest_window(slots: &Vec<((u8, u8), TimeBlockId)>, d: u8, start: u8, n: u8) -> (r: Option<Vec<TimeBlockId>>)
    ensures
        match r {
            None => !dest_ok(slots@, d, start, n as nat),
            Some(v) => dest_ok(slots@, d, start, n as nat) && v@ == window(slots@, d, start, n as nat),
        },
{
    let mut v: Vec<TimeBlockId> = Vec::new();
    let mut k: u8 = 0;
    while k < n
        invariant
            k <= n,
            v@.len() == k,
            forall|j: int| 0 <= j < k ==> dest_slot(slots@, d, start, j) == Some(#[trigger] v@[j]),
        decreases n - k,
    {
        if start as u16 + k as u16 > 255 {
            assert(dest_slot(slots@, d, start, k as int) is None);
            return None;
        }
        let pos: u8 = start + k;
        match lookup_slot(slots, (d, pos)) {
            Some(tb) => {
                v.push(tb);
            },
            None => {
                assert(dest_slot(slots@, d, start, k as int) is None);
                return None;
            },
        }
        k = k + 1;
    }
    proof {
        assert forall|j: int| 0 <= j < n implies (#[trigger] dest_slot(slots@, d, start, j)) is Some by {
            assert(dest_slot(slots@, d, start, j) == Some(v@[j]));
        }
        assert(v@ =~= window(slots@, d, start, n as nat));
    }
    Some(v)
}

/// Whether `v` holds `x`.
pub(crate) fn vec_has(v: &Vec<u128>, x: u128) -> (b: bool)
    ensures
        b == v@.contains(x),
{
    let mut i: usize = 0;
    while i < v.len()
        invariant
            i <= v@.len(),
            forall|j: int| 0 <= j < i ==> v@[j] != x,
        decreases v@.len() - i,
    {
        if v[i] == x {
            assert(v@[i as int] == x);
            return true;
        }
        i = i + 1;
    }
    false
}

/// A destination block `b` is free for the teacher and the classes: the
/// teacher is not blocked there, and a teacher or class booking there is
/// one of the block's own (`srcs`).
pub open spec fn slot_free(
    idx: Indexed,
    s: GreedyState,
    cs: Seq<SchoolClassId>,
    teacher: TeacherId,
    b: u128,
    srcs: Set<u128>,
) -> bool {
    &&& !idx.teacher_blocked@.contains((teacher.0, b))
    &&& s.used_teacher@.contains((teacher.0, b)) ==> srcs.contains(b)
    &&& class_busy(s.used_class@, cs, b) ==> srcs.contains(b)
}

/// Every block of the destination window is free.
pub open spec fn window_free(
    idx: Indexed,
    s: GreedyState,
    cs: Seq<SchoolClassId>,
    teacher: TeacherId,
    dests: Seq<TimeBlockId>,
    srcs: Set<u128>,
) -> bool {
    forall|k: int| 0 <= k < dests.len() ==> slot_free(idx, s, cs, teacher, (#[trigger] dests[k]).0, srcs)
}

fn window_free_exec(
    idx: &Indexed,
    state: &GreedyState,
    cs: &Vec<SchoolClassId>,
    teacher: TeacherId,
    dests: &Vec<TimeBlockId>,
    srcs: &Vec<u128>,
) -> (b: bool)
    ensures
        b == window_free(*idx, *state, cs@, teacher, dests@, srcs@.to_set()),
{
    let mut k: usize = 0;
    while k < dests.len()
        invariant
            k <= dests@.len(),
            forall|j: int| 0 <= j < k ==> slot_free(*idx, *state, cs@, teacher, (#[trigger] dests@[j]).0, srcs@.to_set()),
        decreases dests@.len() - k,
    {
        let b = dests[k].0;
        let own = vec_has(srcs, b);
        if idx.teacher_blocked(teacher, dests[k]) {
            return false;
        }
        if set_contains(&state.used_teacher, (teacher.0, b)) && !own {
            return false;
        }
        if class_busy_exec(&state.used_class, cs, b) && !own {
            return false;
        }
        k = k + 1;
    }
    true
}

/// The room fits the destination block `b`: not blocked there, and a
/// booking of it there is the block's own room at one of its own blocks.
pub open spec fn room_slot_ok(idx: Indexed, used_room: Seq<(u128, u128)>, room: RoomId, src_room: RoomId, b: u128, srcs: Set<u128>) -> bool {
    &&& !idx.room_blocked@.contains((room.0, b))
    &&& used_room.contains((room.0, b)) ==> room == src_room && srcs.contains(b)
}

/// The room suits the subject and fits every block of the window.
pub open spec fn room_fits(
    idx: Indexed,
    used_room: Seq<(u128, u128)>,
    subject: SubjectId,
    room: RoomId,
    src_room: RoomId,
    dests: Seq<TimeBlockId>,
    srcs: Set<u128>,
) -> bool {
    &&& suits(idx.room_subject@, room.0, subject.0)
    &&& forall|k: int| 0 <= k < dests.len() ==> room_slot_ok(idx, used_room, room, src_room, (#[trigger] dests[k]).0, srcs)
}

fn room_fits_exec(
    idx: &Indexed,
    used_room: &Vec<(u128, u128)>,
    subject: SubjectId,
    room: RoomId,
    src_room: RoomId,
    dests: &Vec<TimeBlockId>,
    srcs: &Vec<u128>,
) -> (b: bool)
    ensures
        b == room_fits(*idx, used_room@, subject, room, src_room, dests@, srcs@.to_set()),
{
    if !idx.room_suits_subject(room, subject) {
        return false;
    }
    let mut k: usize = 0;
    while k < dests.len()
        invariant
            k <= dests@.len(),
            suits(idx.room_subject@, room.0, subject.0),
            forall|j: int|
                0 <= j < k ==> room_slot_ok(*idx, used_room@, room, src_room, (#[trigger] dests@[j]).0, srcs@.to_set()),
        decreases dests@.len() - k,
    {
        let b = dests[k].0;
        if idx.room_blocked(room, dests[k]) {
            return false;
        }
        if set_contains(used_room, (room.0, b)) {
            if !(room == src_room && vec_has(srcs, b)) {
                return false;
            }
        }
        k = k + 1;
    }
    true
}

/// The first room of the ordering (indices into `rooms`) other than the
/// block's own that fits the window.
pub open spec fn order_pick(
    rooms: Seq<Room>,
    order: Seq<usize>,
    idx: Indexed,
    used_room: Seq<(u128, u128)>,
    subject: SubjectId,
    src_room: RoomId,
    dests: Seq<TimeBlockId>,
    srcs: Set<u128>,
) -> Option<RoomId>
    decreases order.len(),
{
    if order.len() == 0 {
        None
    } else if order[0] < rooms.len() && rooms[order[0] as int].id != src_room && room_fits(
        idx,
        used_room,
        subject,
        rooms[order[0] as int].id,
        src_room,
        dests,
        srcs,
    ) {
        Some(rooms[order[0] as int].id)
    } else {
        order_pick(rooms, order.drop_first(), idx, used_room, subject, src_room, dests, srcs)
    }
}

/// Walking the ordering up to the room it picks visits only indices of
/// `rooms`.
pub open spec fn order_safe(
    rooms: Seq<Room>,
    order: Seq<usize>,
    idx: Indexed,
    used_room: Seq<(u128, u128)>,
    subject: SubjectId,
    src_room: RoomId,
    dests: Seq<TimeBlockId>,
    srcs: Set<u128>,
) -> bool
    decreases order.len(),
{
    order.len() == 0 || (order[0] < rooms.len() && ((rooms[order[0] as int].id != src_room && room_fits(
        idx,
        used_room,
        subject,
        rooms[order[0] as int].id,
        src_room,
        dests,
        srcs,
    )) || order_safe(rooms, order.drop_first(), idx, used_room, subject, src_room, dests, srcs)))
}

fn order_pick_exec(
    rooms: &Vec<Room>,
    order: &Vec<usize>,
    idx: &Indexed,
    used_room: &Vec<(u128, u128)>,
    subject: SubjectId,
    src_room: RoomId,
    dests: &Vec<TimeBlockId>,
    srcs: &Vec<u128>,
) -> (r: Option<RoomId>)
    requires
        order_safe(rooms@, order@, *idx, used_room@, subject, src_room, dests@, srcs@.to_set()),
    ensures
        r == order_pick(rooms@, order@, *idx, used_room@, subject, src_room, dests@, srcs@.to_set()),
{
    let ghost st = srcs@.to_set();
    proof {
        assert(order@.subrange(0, order@.len() as int) =~= order@);
    }
    let mut j: usize = 0;
    while j < order.len()
        invariant
            j <= order@.len(),
            st == srcs@.to_set(),
            order_safe(rooms@, order@.subrange(j as int, order@.len() as int), *idx, used_room@, subject, src_room, dests@, st),
            order_pick(rooms@, order@, *idx, used_room@, subject, src_room, dests@, st) == order_pick(
                rooms@,
                order@.subrange(j as int, order@.len() as int),
                *idx,
                used_room@,
                subject,
                src_room,
                dests@,
                st,
            ),
        decreases order@.len() - j,
    {
        proof {
            let rest = order@.subrange(j as int, order@.len() as int);
            assert(rest[0] == order@[j as int]);
            assert(rest.drop_first() =~= order@.subrange(j + 1, order@.len() as int));
        }
        let ri = order[j];
        let cand = rooms[ri].id;
        if cand != src_room && room_fits_exec(idx, used_room, subject, cand, src_room, dests, srcs) {
            proof {
                let rest = order@.subrange(j as int, order@.len() as int);
                assert(rest.len() > 0);
                assert(rooms@[rest[0] as int].id == cand);
                assert(order_pick(rooms@, rest, *idx, used_room@, subject, src_room, dests@, st) == Some(cand));
            }
            return Some(cand);
        }
        j = j + 1;
    }
    None
}

/// A lock's count, zero when there is no lock.
pub open spec fn lock_count(o: Option<(RoomId, u32)>) -> nat {
    match o {
        Some(v) => v.1 as nat,
        None => 0,
    }
}

/// A lock of day `d` after `k` occurrences of its class each moved a block
/// of `n` placements from day `od` to day `nd` into `room`: on the old day
/// the count drops by `n` per occurrence (the lock goes at zero); on the new
/// day the lock takes `room` and its count grows by `n` per occurrence;
/// within one day the lock takes `room` and keeps its count, but not below
/// `n`.
pub open spec fn lock_block(o: Option<(RoomId, u32)>, d: u8, od: u8, nd: u8, k: nat, n: nat, room: RoomId) -> Option<
    (RoomId, u32),
> {
    if k == 0 {
        o
    } else if od == nd {
        if d == od {
            Some((room, (lock_count(lock_dec_n(o, n)) + n) as u32))
        } else {
            o
        }
    } else if d == od {
        lock_dec_n(o, n * k)
    } else if d == nd {
        Some((room, (lock_count(o) + n * k) as u32))
    } else {
        o
    }
}

/// A counter of day `d` after `k` occurrences of its class each moved a
/// block of `n` from day `od` to day `nd`.
pub open spec fn count_block(o: Option<u8>, d: u8, od: u8, nd: u8, k: nat, n: nat) -> Option<u8> {
    if k == 0 {
        o
    } else if od == nd {
        if d == od {
            count_inc_n(count_dec_n(o, n), n)
        } else {
            o
        }
    } else if d == od {
        count_dec_n(o, n * k)
    } else if d == nd {
        count_inc_n(o, n * k)
    } else {
        o
    }
}

/// One more occurrence moved: the old day's lock loses `n`, then the new
/// day's lock takes `room` and gains `n`.
proof fn lemma_lock_block_step(o: Option<(RoomId, u32)>, d: u8, od: u8, nd: u8, k: nat, n: nat, room: RoomId)
    requires
        n >= 1,
        od != nd && d == nd ==> lock_count(o) + n * (k + 1) <= u32::MAX,
    ensures
        ({
            let v = lock_block(o, d, od, nd, k, n, room);
            let v1 = if d == od {
                lock_dec_n(v, n)
            } else {
                v
            };
            let v2 = if d == nd {
                Some((room, (lock_count(v1) + n) as u32))
            } else {
                v1
            };
            v2 == lock_block(o, d, od, nd, k + 1, n, room)
        }),
{
    assert(n * (k + 1) == n * k + n) by (nonlinear_arith);
    assert(n * k >= 0) by (nonlinear_arith)
        requires
            n >= 1,
    ;
    if od != nd && d == nd {
        assert(lock_count(o) + n * k <= u32::MAX);
    }
}

/// One more occurrence moved, for a counter.
proof fn lemma_count_block_step(o: Option<u8>, d: u8, od: u8, nd: u8, k: nat, n: nat)
    requires
        n >= 1,
        od != nd && d == nd ==> (match o {
            Some(v) => v as int,
            None => 0,
        }) + n * (k + 1) <= u8::MAX,
    ensures
        ({
            let v = count_block(o, d, od, nd, k, n);
            let v1 = if d == od {
                count_dec_n(v, n)
            } else {
                v
            };
            let v2 = if d == nd {
                count_inc_n(v1, n)
            } else {
                v1
            };
            v2 == count_block(o, d, od, nd, k + 1, n)
        }),
{
    assert(n * (k + 1) == n * k + n) by (nonlinear_arith);
    assert(n * k >= 0) by (nonlinear_arith)
        requires
            n >= 1,
    ;
}

/// For each class occurrence: the lock of `(class, od, subject)` loses `n`
/// placements, then that of `(class, nd, subject)` takes `room` and gains
/// `n`.
pub(crate) fn block_move_locks(
    locked_room: &mut Vec<((SchoolClassId, u8, SubjectId), (RoomId, u32))>,
    classes: &Vec<SchoolClassId>,
    od: u8,
    nd: u8,
    subject: SubjectId,
    room: RoomId,
    n: u8,
)
    requires
        n >= 1,
        keys_unique(old(locked_room)@),
        od != nd ==> forall|c: SchoolClassId|
            #[trigger] classes@.contains(c) ==> fits_lock(map_get(old(locked_room)@, (c, nd, subject)), (n as nat) * occ(classes@, c)),
    ensures
        keys_unique(final(locked_room)@),
        forall|k: (SchoolClassId, u8, SubjectId)|
            #[trigger] map_get(final(locked_room)@, k) == if k.2 == subject {
                lock_block(map_get(old(locked_room)@, k), k.1, od, nd, occ(classes@, k.0), n as nat, room)
            } else {
                map_get(old(locked_room)@, k)
            },
{
    let ghost cs = classes@;
    let ghost l0 = locked_room@;
    let mut i: usize = 0;
    while i < classes.len()
        invariant
            i <= cs.len(),
            cs == classes@,
            n >= 1,
            keys_unique(locked_room@),
            od != nd ==> forall|c: SchoolClassId|
                #[trigger] cs.contains(c) ==> fits_lock(map_get(l0, (c, nd, subject)), (n as nat) * occ(cs, c)),
            forall|k: (SchoolClassId, u8, SubjectId)|
                #[trigger] map_get(locked_room@, k) == if k.2 == subject {
                    lock_block(map_get(l0, k), k.1, od, nd, occ(cs.take(i as int), k.0), n as nat, room)
                } else {
                    map_get(l0, k)
                },
        decreases cs.len() - i,
    {
        let c = classes[i];
        let ghost before = locked_room@;
        proof {
            assert(cs.contains(c)) by {
                assert(cs[i as int] == c);
            }
            lemma_occ_push(cs, i as int, c);
            lemma_occ_prefix(cs, i + 1, c);
            let kk = occ(cs.take(i as int), c);
            if od != nd {
                lemma_mul_step(kk, occ(cs, c), n as nat);
                assert(n * (kk + 1) == (kk + 1) * n) by (nonlinear_arith);
                assert(n * occ(cs, c) == occ(cs, c) * n) by (nonlinear_arith);
                lemma_lock_block_step(map_get(l0, (c, nd, subject)), nd, od, nd, kk, n as nat, room);
                assert(map_get(locked_room@, (c, nd, subject)) == lock_block(map_get(l0, (c, nd, subject)), nd, od, nd, kk, n as nat, room));
                assert(lock_count(map_get(locked_room@, (c, nd, subject))) + n <= u32::MAX) by {
                    assert(n * (kk + 1) == n * kk + n) by (nonlinear_arith);
                }
            }
        }
        sub_lock(locked_room, (c, od, subject), n as u32);
        let ghost mid = locked_room@;
        proof {
            if od == nd {
                let kk = occ(cs.take(i as int), c);
                let o = map_get(l0, (c, nd, subject));
                assert(map_get(mid, (c, nd, subject)) == lock_dec_n(lock_block(o, nd, od, nd, kk, n as nat, room), n as nat));
            }
        }
        relock_add(locked_room, (c, nd, subject), room, n as u32);
        proof {
            assert forall|k: (SchoolClassId, u8, SubjectId)| #[trigger] map_get(locked_room@, k) == if k.2 == subject {
                lock_block(map_get(l0, k), k.1, od, nd, occ(cs.take(i + 1), k.0), n as nat, room)
            } else {
                map_get(l0, k)
            } by {
                lemma_occ_push(cs, i as int, k.0);
                if k.2 == subject && k.0 == c && (k.1 == od || k.1 == nd) {
                    let kk = occ(cs.take(i as int), c);
                    if od != nd && k.1 == nd {
                        lemma_occ_prefix(cs, i + 1, c);
                        lemma_mul_step(kk, occ(cs, c), n as nat);
                        assert(n * (kk + 1) == (kk + 1) * n) by (nonlinear_arith);
                        assert(n * occ(cs, c) == occ(cs, c) * n) by (nonlinear_arith);
                    }
                    lemma_lock_block_step(map_get(l0, k), k.1, od, nd, kk, n as nat, room);
                }
            }
        }
        i = i + 1;
    }
    proof {
        assert(cs.take(cs.len() as int) =~= cs);
    }
}

/// The step of one occurrence on one `u8` counter table: the old day's
/// counter loses `n`, then the new day's gains `n`.
proof fn lemma_counter_step<K>(
    before: Seq<(K, u8)>,
    mid: Seq<(K, u8)>,
    after: Seq<(K, u8)>,
    ko: K,
    kn: K,
    k: K,
    o: Option<u8>,
    d: u8,
    od: u8,
    nd: u8,
    kk: nat,
    n: nat,
)
    requires
        n >= 1,
        od != nd && d == nd ==> (match o {
            Some(v) => v as int,
            None => 0,
        }) + n * (kk + 1) <= u8::MAX,
        map_get(before, k) == count_block(o, d, od, nd, kk, n),
        (k == ko) == (d == od),
        (k == kn) == (d == nd),
        map_get(mid, ko) == count_dec_n(map_get(before, ko), n),
        forall|k2: K| k2 != ko ==> #[trigger] map_get(mid, k2) == map_get(before, k2),
        map_get(after, kn) == count_inc_n(map_get(mid, kn), n),
        forall|k2: K| k2 != kn ==> #[trigger] map_get(after, k2) == map_get(mid, k2),
    ensures
        map_get(after, k) == count_block(o, d, od, nd, kk + 1, n),
{
    lemma_count_block_step(o, d, od, nd, kk, n);
}

/// For each class occurrence: the hours of the subject on `(class, od)`
/// and the blocks of `(class, od)` lose `n` (a counter reaching zero is
/// dropped), then those of `nd` gain `n`.
pub(crate) fn block_move_counters(
    subject_hours: &mut Vec<((SchoolClassId, u8, SubjectId), u8)>,
    lessons_by_class_day: &mut Vec<((SchoolClassId, u8), u8)>,
    classes: &Vec<SchoolClassId>,
    od: u8,
    nd: u8,
    subject: SubjectId,
    n: u8,
)
    requires
        n >= 1,
        keys_unique(old(subject_hours)@),
        keys_unique(old(lessons_by_class_day)@),
        od != nd ==> forall|c: SchoolClassId|
            #[trigger] classes@.contains(c) ==> fits_u8(map_get(old(subject_hours)@, (c, nd, subject)), (n as nat) * occ(classes@, c))
                && fits_u8(map_get(old(lessons_by_class_day)@, (c, nd)), (n as nat) * occ(classes@, c)),
    ensures
        keys_unique(final(subject_hours)@),
        keys_unique(final(lessons_by_class_day)@),
        forall|k: (SchoolClassId, u8, SubjectId)|
            #[trigger] map_get(final(subject_hours)@, k) == if k.2 == subject {
                count_block(map_get(old(subject_hours)@, k), k.1, od, nd, occ(classes@, k.0), n as nat)
            } else {
                map_get(old(subject_hours)@, k)
            },
        forall|k: (SchoolClassId, u8)|
            #[trigger] map_get(final(lessons_by_class_day)@, k) == count_block(
                map_get(old(lessons_by_class_day)@, k),
                k.1,
                od,
                nd,
                occ(classes@, k.0),
                n as nat,
            ),
{
    let ghost cs = classes@;
    let ghost h0 = subject_hours@;
    let ghost b0 = lessons_by_class_day@;
    let mut i: usize = 0;
    while i < classes.len()
        invariant
            i <= cs.len(),
            cs == classes@,
            n >= 1,
            keys_unique(subject_hours@),
            keys_unique(lessons_by_class_day@),
            od != nd ==> forall|c: SchoolClassId|
                #[trigger] cs.contains(c) ==> fits_u8(map_get(h0, (c, nd, subject)), (n as nat) * occ(cs, c)) && fits_u8(
                    map_get(b0, (c, nd)),
                    (n as nat) * occ(cs, c),
                ),
            forall|k: (SchoolClassId, u8, SubjectId)|
                #[trigger] map_get(subject_hours@, k) == if k.2 == subject {
                    count_block(map_get(h0, k), k.1, od, nd, occ(cs.take(i as int), k.0), n as nat)
                } else {
                    map_get(h0, k)
                },
            forall|k: (SchoolClassId, u8)|
                #[trigger] map_get(lessons_by_class_day@, k) == count_block(
                    map_get(b0, k),
                    k.1,
                    od,
                    nd,
                    occ(cs.take(i as int), k.0),
                    n as nat,
                ),
        decreases cs.len() - i,
    {
        let c = classes[i];
        let ghost kk = occ(cs.take(i as int), c);
        proof {
            assert(cs.contains(c)) by {
                assert(cs[i as int] == c);
            }
            lemma_occ_push(cs, i as int, c);
            lemma_occ_prefix(cs, i + 1, c);
            if od != nd {
                lemma_mul_step(kk, occ(cs, c), n as nat);
                assert((n as nat) * (kk + 1) == (kk + 1) * (n as nat)) by (nonlinear_arith);
                assert((n as nat) * occ(cs, c) == occ(cs, c) * (n as nat)) by (nonlinear_arith);
                assert((n as nat) * (kk + 1) == (n as nat) * kk + n) by (nonlinear_arith);
                assert((n as nat) * kk >= 0) by (nonlinear_arith);
            }
        }
        let ghost hb = subject_hours@;
        let ghost bb = lessons_by_class_day@;
        sub_remove_u8(subject_hours, (c, od, subject), n);
        sub_remove_u8(lessons_by_class_day, (c, od), n);
        let ghost hm = subject_hours@;
        let ghost bm = lessons_by_class_day@;
        add_u8(subject_hours, (c, nd, subject), n);
        add_u8(lessons_by_class_day, (c, nd), n);
        proof {
            assert forall|k: (SchoolClassId, u8, SubjectId)| #[trigger] map_get(subject_hours@, k) == if k.2 == subject {
                count_block(map_get(h0, k), k.1, od, nd, occ(cs.take(i + 1), k.0), n as nat)
            } else {
                map_get(h0, k)
            } by {
                lemma_occ_push(cs, i as int, k.0);
                if k.2 == subject && k.0 == c {
                    lemma_counter_step(
                        hb,
                        hm,
                        subject_hours@,
                        (c, od, subject),
                        (c, nd, subject),
                        k,
                        map_get(h0, k),
                        k.1,
                        od,
                        nd,
                        kk,
                        n as nat,
                    );
                }
            }
            assert forall|k: (SchoolClassId, u8)| #[trigger] map_get(lessons_by_class_day@, k) == count_block(
                map_get(b0, k),
                k.1,
                od,
                nd,
                occ(cs.take(i + 1), k.0),
                n as nat,
            ) by {
                lemma_occ_push(cs, i as int, k.0);
                if k.0 == c {
                    lemma_counter_step(
                        bb,
                        bm,
                        lessons_by_class_day@,
                        (c, od),
                        (c, nd),
                        k,
                        map_get(b0, k),
                        k.1,
                        od,
                        nd,
                        kk,
                        n as nat,
                    );
                }
            }
        }
        i = i + 1;
    }
    proof {
        assert(cs.take(cs.len() as int) =~= cs);
    }
}

/// The pairs `(owner, block)` with the owner among `owners` and the block
/// among `blocks`.
pub open spec fn pairs(owners: Seq<u128>, blocks: Seq<u128>) -> Set<(u128, u128)> {
    Set::new(|x: (u128, u128)| owners.contains(x.0) && blocks.contains(x.1))
}

/// Drop from the set held by `v` every pair of an owner among `owners` and
/// a block among `blocks`.
pub(crate) fn unbook_pairs(v: &mut Vec<(u128, u128)>, owners: &Vec<u128>, blocks: &Vec<u128>)
    ensures
        final(v)@.to_set() == old(v)@.to_set().difference(pairs(owners@, blocks@)),
{
    let mut out: Vec<(u128, u128)> = Vec::new();
    let mut i: usize = 0;
    while i < v.len()
        invariant
            i <= v@.len(),
            forall|y: (u128, u128)|
                out@.contains(y) <==> (!pairs(owners@, blocks@).contains(y) && exists|j: int| 0 <= j < i && #[trigger] v@[j] == y),
        decreases v@.len() - i,
    {
        let y = v[i];
        let ghost before = out@;
        let drop = vec_has(owners, y.0) && vec_has(blocks, y.1);
        if !drop {
            out.push(y);
        }
        proof {
            assert forall|z: (u128, u128)|
                out@.contains(z) <==> (!pairs(owners@, blocks@).contains(z) && exists|j: int| 0 <= j < i + 1 && #[trigger] v@[j] == z) by {
                if out@.contains(z) {
                    let k = choose|k: int| 0 <= k < out@.len() && out@[k] == z;
                    if k < before.len() {
                        assert(before.contains(z));
                    } else {
                        assert(v@[i as int] == z);
                    }
                }
                if !pairs(owners@, blocks@).contains(z) && exists|j: int| 0 <= j < i + 1 && #[trigger] v@[j] == z {
                    let j = choose|j: int| 0 <= j < i + 1 && #[trigger] v@[j] == z;
                    if j < i {
                        assert(before.contains(z));
                        let k = choose|k: int| 0 <= k < before.len() && before[k] == z;
                        assert(out@[k] == z);
                    } else {
                        assert(out@[before.len() as int] == z);
                    }
                }
            }
        }
        i = i + 1;
    }
    proof {
        assert forall|y: (u128, u128)| out@.to_set().contains(y) <==> old(v)@.to_set().difference(pairs(owners@, blocks@)).contains(y) by {
            if old(v)@.contains(y) {
                let j = choose|j: int| 0 <= j < old(v)@.len() && old(v)@[j] == y;
                assert(v@[j] == y);
            }
        }
        assert(out@.to_set() =~= old(v)@.to_set().difference(pairs(owners@, blocks@)));
    }
    *v = out;
}

/// Add to the set held by `v` every pair of an owner among `owners` and a
/// block among `blocks`.
pub(crate) fn book_pairs(v: &mut Vec<(u128, u128)>, owners: &Vec<u128>, blocks: &Vec<u128>)
    ensures
        final(v)@.to_set() == old(v)@.to_set().union(pairs(owners@, blocks@)),
{
    let ghost v0 = v@.to_set();
    let mut i: usize = 0;
    while i < blocks.len()
        invariant
            i <= blocks@.len(),
            v@.to_set() == v0.union(pairs(owners@, blocks@.take(i as int))),
        decreases blocks@.len() - i,
    {
        let b = blocks[i];
        let mut j: usize = 0;
        while j < owners.len()
            invariant
                i < blocks@.len(),
                b == blocks@[i as int],
                j <= owners@.len(),
                v@.to_set() == v0.union(pairs(owners@, blocks@.take(i as int))).union(
                    Set::new(|x: (u128, u128)| owners@.take(j as int).contains(x.0) && x.1 == b),
                ),
            decreases owners@.len() - j,
        {
            let ghost before = v@.to_set();
            set_insert(v, (owners[j], b));
            proof {
                let t = owners@.take(j as int);
                let t1 = owners@.take(j + 1);
                assert forall|o: u128| t1.contains(o) <==> t.contains(o) || o == owners@[j as int] by {
                    if t1.contains(o) {
                        let k = choose|k: int| 0 <= k < t1.len() && t1[k] == o;
                        if k < t.len() {
                            assert(t[k] == o);
                        }
                    }
                    if t.contains(o) {
                        let k = choose|k: int| 0 <= k < t.len() && t[k] == o;
                        assert(t1[k] == o);
                    }
                    if o == owners@[j as int] {
                        assert(t1[j as int] == o);
                    }
                }
                assert(v@.to_set() =~= v0.union(pairs(owners@, blocks@.take(i as int))).union(
                    Set::new(|x: (u128, u128)| owners@.take(j + 1).contains(x.0) && x.1 == b),
                ));
            }
            j = j + 1;
        }
        proof {
            let t = blocks@.take(i as int);
            let t1 = blocks@.take(i + 1);
            assert(owners@.take(owners@.len() as int) =~= owners@);
            assert forall|x: u128| t1.contains(x) <==> t.contains(x) || x == b by {
                if t1.contains(x) {
                    let k = choose|k: int| 0 <= k < t1.len() && t1[k] == x;
                    if k < t.len() {
                        assert(t[k] == x);
                    }
                }
                if t.contains(x) {
                    let k = choose|k: int| 0 <= k < t.len() && t[k] == x;
                    assert(t1[k] == x);
                }
                if x == b {
                    assert(t1[i as int] == x);
                }
            }
            assert(v@.to_set() =~= v0.union(pairs(owners@, t1)));
        }
        i = i + 1;
    }
    proof {
        assert(blocks@.take(blocks@.len() as int) =~= blocks@);
    }
}

/// The positions `0 .. k - 1` that lie in `set`, in increasing order.
pub open spec fn positions_upto(set: Set<u8>, k: int) -> Seq<u8>
    decreases k,
{
    if k <= 0 {
        seq![]
    } else {
        let r = positions_upto(set, k - 1);
        if set.contains((k - 1) as u8) {
            r.push((k - 1) as u8)
        } else {
            r
        }
    }
}

/// The positions of `set` in increasing order.
pub open spec fn sorted_positions(set: Set<u8>) -> Seq<u8> {
    positions_upto(set, 256)
}

proof fn lemma_positions_upto(set: Set<u8>, k: int)
    requires
        0 <= k <= 256,
    ensures
        strictly_sorted(positions_upto(set, k)),
        forall|i: int| 0 <= i < positions_upto(set, k).len() ==> positions_upto(set, k)[i] < k,
    decreases k,
{
    if k > 0 {
        lemma_positions_upto(set, k - 1);
    }
}

/// Row `p` is a row of class `c` at position `x` of day `d`.
pub open spec fn class_row_at(ls: Seq<Lesson>, tbs: Seq<TimeBlock>, p: Placement, c: SchoolClassId, d: u8, x: u8) -> bool {
    &&& row_lesson(ls, p).school_class_ids@.contains(c)
    &&& row_block(tbs, p).day_of_week == d
    &&& row_block(tbs, p).position == x
}

/// The positions class `c` occupies on day `d`.
pub open spec fn class_day_set(ls: Seq<Lesson>, tbs: Seq<TimeBlock>, ps: Seq<Placement>, c: SchoolClassId, d: u8) -> Set<u8> {
    Set::new(|x: u8| exists|j: int| 0 <= j < ps.len() && #[trigger] class_row_at(ls, tbs, ps[j], c, d, x))
}

/// Row `p` is a row of teacher `t` at position `x` of day `d`.
pub open spec fn teacher_row_at(tbs: Seq<TimeBlock>, p: Placement, t: TeacherId, d: u8, x: u8) -> bool {
    &&& p.teacher_id == t
    &&& row_block(tbs, p).day_of_week == d
    &&& row_block(tbs, p).position == x
}

/// The positions teacher `t` occupies on day `d`.
pub open spec fn teacher_day_set(tbs: Seq<TimeBlock>, ps: Seq<Placement>, t: TeacherId, d: u8) -> Set<u8> {
    Set::new(|x: u8| exists|j: int| 0 <= j < ps.len() && #[trigger] teacher_row_at(tbs, ps[j], t, d, x))
}

/// Every row's lesson resolves, and the block of every row of class `c`
/// does.
pub open spec fn class_rows_resolve(ls: Seq<Lesson>, tbs: Seq<TimeBlock>, ps: Seq<Placement>, c: SchoolClassId) -> bool {
    forall|j: int|
        0 <= j < ps.len() ==> lesson_index(ls, (#[trigger] ps[j]).lesson_id) >= 0 && (row_lesson(
            ls,
            ps[j],
        ).school_class_ids@.contains(c) ==> tb_index(tbs, ps[j].time_block_id) >= 0)
}

/// The block of every row of teacher `t` resolves.
pub open spec fn teacher_rows_resolve(tbs: Seq<TimeBlock>, ps: Seq<Placement>, t: TeacherId) -> bool {
    forall|j: int| 0 <= j < ps.len() && (#[trigger] ps[j]).teacher_id == t ==> tb_index(tbs, ps[j].time_block_id) >= 0
}

/// Whether class `c` is among `cs`.
pub(crate) fn class_in(cs: &Vec<SchoolClassId>, c: SchoolClassId) -> (b: bool)
    ensures
        b == cs@.contains(c),
{
    let mut i: usize = 0;
    while i < cs.len()
        invariant
            i <= cs@.len(),
            forall|j: int| 0 <= j < i ==> cs@[j] != c,
        decreases cs@.len() - i,
    {
        if cs[i] == c {
            assert(cs@[i as int] == c);
            return true;
        }
        i = i + 1;
    }
    false
}

/// The positions of a presence table, in increasing order.
fn emit_positions(present: &Vec<bool>, Ghost(set): Ghost<Set<u8>>) -> (v: Vec<u8>)
    requires
        present@.len() == 256,
        forall|x: u8| #[trigger] set.contains(x) <==> present@[x as int],
    ensures
        v@ == sorted_positions(set),
{
    let mut v: Vec<u8> = Vec::new();
    let mut x: usize = 0;
    while x < 256
        invariant
            x <= 256,
            present@.len() == 256,
            forall|y: u8| #[trigger] set.contains(y) <==> present@[y as int],
            v@ == positions_upto(set, x as int),
        decreases 256 - x,
    {
        if present[x] {
            assert(set.contains(x as u8));
            v.push(x as u8);
        } else {
            assert(!set.contains(x as u8));
        }
        x = x + 1;
    }
    v
}

fn empty_presence() -> (present: Vec<bool>)
    ensures
        present@.len() == 256,
        forall|x: int| 0 <= x < 256 ==> !present@[x],
{
    let mut present: Vec<bool> = Vec::new();
    let mut x: usize = 0;
    while x < 256
        invariant
            x <= 256,
            present@.len() == x,
            forall|y: int| 0 <= y < x ==> !present@[y],
        decreases 256 - x,
    {
        present.push(false);
        x = x + 1;
    }
    present
}

/// The positions class `c` occupies on day `d` in `ps`, in increasing
/// order.
fn class_day_positions(problem: &Problem, ps: &Vec<Placement>, c: SchoolClassId, d: u8) -> (v: Vec<u8>)
    requires
        class_rows_resolve(problem.lessons@, problem.time_blocks@, ps@, c),
    ensures
        v@ == sorted_positions(class_day_set(problem.lessons@, problem.time_blocks@, ps@, c, d)),
{
    let ghost ls = problem.lessons@;
    let ghost tbs = problem.time_blocks@;
    let mut present = empty_presence();
    let mut j: usize = 0;
    while j < ps.len()
        invariant
            j <= ps@.len(),
            ls == problem.lessons@,
            tbs == problem.time_blocks@,
            class_rows_resolve(ls, tbs, ps@, c),
            present@.len() == 256,
            forall|x: u8|
                #![trigger present@[x as int]]
                present@[x as int] <==> exists|k: int| 0 <= k < j && #[trigger] class_row_at(ls, tbs, ps@[k], c, d, x),
        decreases ps@.len() - j,
    {
        let p = ps[j];
        let li = match find_lesson(&problem.lessons, p.lesson_id) {
            Some(li) => li,
            None => {
                assert(lesson_index(ls, ps@[j as int].lesson_id) >= 0);
                return Vec::new();
            },
        };
        let ghost before = present@;
        if class_in(&problem.lessons[li].school_class_ids, c) {
            let t = match find_tb(&problem.time_blocks, p.time_block_id) {
                Some(t) => t,
                None => {
                    assert(tb_index(tbs, ps@[j as int].time_block_id) >= 0);
                    return Vec::new();
                },
            };
            if problem.time_blocks[t].day_of_week == d {
                let pos = problem.time_blocks[t].position;
                present.set(pos as usize, true);
            }
        }
        proof {
            assert forall|x: u8|
                #![trigger present@[x as int]]
                present@[x as int] <==> exists|k: int| 0 <= k < j + 1 && #[trigger] class_row_at(ls, tbs, ps@[k], c, d, x) by {
                if present@[x as int] && !before[x as int] {
                    assert(class_row_at(ls, tbs, ps@[j as int], c, d, x));
                }
                if exists|k: int| 0 <= k < j + 1 && #[trigger] class_row_at(ls, tbs, ps@[k], c, d, x) {
                    let k = choose|k: int| 0 <= k < j + 1 && #[trigger] class_row_at(ls, tbs, ps@[k], c, d, x);
                    if k < j {
                        assert(before[x as int]);
                    }
                }
            }
        }
        j = j + 1;
    }
    let ghost set = class_day_set(ls, tbs, ps@, c, d);
    proof {
        assert forall|x: u8| #[trigger] set.contains(x) <==> present@[x as int] by {
            if present@[x as int] {
                let k = choose|k: int| 0 <= k < ps@.len() && #[trigger] class_row_at(ls, tbs, ps@[k], c, d, x);
                assert(set.contains(x));
            }
        }
    }
    emit_positions(&present, Ghost(set))
}

/// The positions teacher `t` occupies on day `d` in `ps`, in increasing
/// order.
pub(crate) fn teacher_day_positions(tbs: &Vec<TimeBlock>, ps: &Vec<Placement>, t: TeacherId, d: u8) -> (v: Vec<u8>)
    requires
        teacher_rows_resolve(tbs@, ps@, t),
    ensures
        v@ == sorted_positions(teacher_day_set(tbs@, ps@, t, d)),
{
    let mut present = empty_presence();
    let mut j: usize = 0;
    while j < ps.len()
        invariant
            j <= ps@.len(),
            teacher_rows_resolve(tbs@, ps@, t),
            present@.len() == 256,
            forall|x: u8|
                #![trigger present@[x as int]]
                present@[x as int] <==> exists|k: int| 0 <= k < j && #[trigger] teacher_row_at(tbs@, ps@[k], t, d, x),
        decreases ps@.len() - j,
    {
        let p = ps[j];
        let ghost before = present@;
        if p.teacher_id == t {
            let ti = match find_tb(tbs, p.time_block_id) {
                Some(ti) => ti,
                None => {
                    assert(tb_index(tbs@, ps@[j as int].time_block_id) >= 0);
                    return Vec::new();
                },
            };
            if tbs[ti].day_of_week == d {
                let pos = tbs[ti].position;
                present.set(pos as usize, true);
            }
        }
        proof {
            assert forall|x: u8|
                #![trigger present@[x as int]]
                present@[x as int] <==> exists|k: int| 0 <= k < j + 1 && #[trigger] teacher_row_at(tbs@, ps@[k], t, d, x) by {
                if present@[x as int] && !before[x as int] {
                    assert(teacher_row_at(tbs@, ps@[j as int], t, d, x));
                }
                if exists|k: int| 0 <= k < j + 1 && #[trigger] teacher_row_at(tbs@, ps@[k], t, d, x) {
                    let k = choose|k: int| 0 <= k < j + 1 && #[trigger] teacher_row_at(tbs@, ps@[k], t, d, x);
                    if k < j {
                        assert(before[x as int]);
                    }
                }
            }
        }
        j = j + 1;
    }
    let ghost set = teacher_day_set(tbs@, ps@, t, d);
    proof {
        assert forall|x: u8| #[trigger] set.contains(x) <==> present@[x as int] by {
            if present@[x as int] {
                let k = choose|k: int| 0 <= k < ps@.len() && #[trigger] teacher_row_at(tbs@, ps@[k], t, d, x);
                assert(set.contains(x));
            }
        }
    }
    emit_positions(&present, Ghost(set))
}

/// Record the positions `v` under `(owner, day)`, dropping the key when
/// there are none.
pub(crate) fn put_positions(part: &mut Partition, owner: u128, day: u8, v: Vec<u8>, Ghost(set): Ghost<Set<u8>>)
    requires
        old(part).wf(),
        v@ == sorted_positions(set),
    ensures
        final(part).wf(),
        final(part).lookup((owner, day)) == sorted_positions(set),
        forall|k: (u128, u8)| k != (owner, day) ==> final(part).lookup(k) == old(part).lookup(k),
{
    proof {
        lemma_positions_upto(set, 256);
    }
    if v.len() == 0 {
        part.remove_key(owner, day);
        assert(part.lookup((owner, day)) =~= v@);
    } else {
        part.set_entry(owner, day, v);
    }
}

/// Rebuild the positions of every member class on days `od` and `nd` from
/// the rows `ps`.
pub(crate) fn rebuild_class_days(part: &mut Partition, problem: &Problem, ps: &Vec<Placement>, cs: &Vec<SchoolClassId>, od: u8, nd: u8)
    requires
        old(part).wf(),
        forall|c: SchoolClassId| #[trigger] cs@.contains(c) ==> class_rows_resolve(problem.lessons@, problem.time_blocks@, ps@, c),
    ensures
        final(part).wf(),
        forall|key: (u128, u8)|
            #[trigger] final(part).lookup(key) == if cs@.contains(SchoolClassId(key.0)) && (key.1 == od || key.1 == nd) {
                sorted_positions(class_day_set(problem.lessons@, problem.time_blocks@, ps@, SchoolClassId(key.0), key.1))
            } else {
                old(part).lookup(key)
            },
{
    let ghost ls = problem.lessons@;
    let ghost tbs = problem.time_blocks@;
    let ghost p0 = *part;
    let mut i: usize = 0;
    while i < cs.len()
        invariant
            i <= cs@.len(),
            ls == problem.lessons@,
            tbs == problem.time_blocks@,
            part.wf(),
            forall|c: SchoolClassId| #[trigger] cs@.contains(c) ==> class_rows_resolve(ls, tbs, ps@, c),
            forall|key: (u128, u8)|
                #[trigger] part.lookup(key) == if cs@.take(i as int).contains(SchoolClassId(key.0)) && (key.1 == od || key.1
                    == nd) {
                    sorted_positions(class_day_set(ls, tbs, ps@, SchoolClassId(key.0), key.1))
                } else {
                    p0.lookup(key)
                },
        decreases cs@.len() - i,
    {
        let c = cs[i];
        proof {
            assert(cs@.contains(c)) by {
                assert(cs@[i as int] == c);
            }
        }
        let ghost before = *part;
        let vo = class_day_positions(problem, ps, c, od);
        put_positions(part, c.0, od, vo, Ghost(class_day_set(ls, tbs, ps@, c, od)));
        let vn = class_day_positions(problem, ps, c, nd);
        put_positions(part, c.0, nd, vn, Ghost(class_day_set(ls, tbs, ps@, c, nd)));
        proof {
            let t = cs@.take(i as int);
            let t1 = cs@.take(i + 1);
            assert forall|x: SchoolClassId| t1.contains(x) <==> t.contains(x) || x == c by {
                if t1.contains(x) {
                    let k = choose|k: int| 0 <= k < t1.len() && t1[k] == x;
                    if k < t.len() {
                        assert(t[k] == x);
                    }
                }
                if t.contains(x) {
                    let k = choose|k: int| 0 <= k < t.len() && t[k] == x;
                    assert(t1[k] == x);
                }
                if x == c {
                    assert(t1[i as int] == c);
                }
            }
            assert forall|key: (u128, u8)|
                #[trigger] part.lookup(key) == if t1.contains(SchoolClassId(key.0)) && (key.1 == od || key.1 == nd) {
                    sorted_positions(class_day_set(ls, tbs, ps@, SchoolClassId(key.0), key.1))
                } else {
                    p0.lookup(key)
                } by {
                if key == (c.0, od) || key == (c.0, nd) {
                    assert(SchoolClassId(key.0) == c);
                }
            }
        }
        i = i + 1;
    }
    proof {
        assert(cs@.take(cs@.len() as int) =~= cs@);
    }
}

/// Class `c` has room on day `nd` for `n` more hours of the lesson's subject
/// and, under its daily cap, for `n` more blocks.
pub open spec fn block_class_caps(
    problem: Problem,
    s: GreedyState,
    caps: Seq<(SchoolClassId, u8)>,
    l: Lesson,
    c: SchoolClassId,
    nd: u8,
    n: nat,
) -> bool {
    &&& count_or_zero(map_get(s.subject_hours_by_class_day@, (c, nd, l.subject_id))) + n <= first_subject_cap(
        problem.subjects@,
        l.subject_id,
    )
    &&& match map_get(caps, c) {
        Some(cap) => count_or_zero(map_get(s.lessons_by_class_day@, (c, nd))) + n <= cap,
        None => true,
    }
}

/// A move of the block to another day keeps every member class within its
/// caps there.
pub open spec fn block_caps(
    problem: Problem,
    s: GreedyState,
    caps: Seq<(SchoolClassId, u8)>,
    l: Lesson,
    od: u8,
    nd: u8,
    n: nat,
) -> bool {
    od == nd || forall|i: int|
        0 <= i < l.school_class_ids@.len() ==> #[trigger] block_class_caps(
            problem,
            s,
            caps,
            l,
            l.school_class_ids@[i],
            nd,
            n,
        )
}

fn block_caps_exec(
    problem: &Problem,
    state: &GreedyState,
    caps: &Vec<(SchoolClassId, u8)>,
    lesson: &Lesson,
    od: u8,
    nd: u8,
    n: u8,
) -> (b: bool)
    ensures
        b == block_caps(*problem, *state, caps@, *lesson, od, nd, n as nat),
{
    if od == nd {
        return true;
    }
    let cs = &lesson.school_class_ids;
    let subject_cap = first_subject_cap_exec(&problem.subjects, lesson.subject_id);
    let mut i: usize = 0;
    while i < cs.len()
        invariant
            i <= cs@.len(),
            cs == &lesson.school_class_ids,
            od != nd,
            subject_cap == first_subject_cap(problem.subjects@, lesson.subject_id),
            forall|j: int| 0 <= j < i ==> #[trigger] block_class_caps(*problem, *state, caps@, *lesson, cs@[j], nd, n as nat),
        decreases cs@.len() - i,
    {
        let c = cs[i];
        match table_get_u8(caps, &c) {
            Some(cap) => {
                let today = match table_get_u8(&state.lessons_by_class_day, &(c, nd)) {
                    Some(v) => v,
                    None => 0,
                };
                if today as u16 + n as u16 > cap as u16 {
                    assert(!block_class_caps(*problem, *state, caps@, *lesson, cs@[i as int], nd, n as nat));
                    return false;
                }
            },
            None => {},
        }
        let hours = match table_get_u8(&state.subject_hours_by_class_day, &(c, nd, lesson.subject_id)) {
            Some(v) => v,
            None => 0,
        };
        if hours as u16 + n as u16 > subject_cap as u16 {
            assert(!block_class_caps(*problem, *state, caps@, *lesson, cs@[i as int], nd, n as nat));
            return false;
        }
        assert(block_class_caps(*problem, *state, caps@, *lesson, cs@[i as int], nd, n as nat));
        i = i + 1;
    }
    true
}

/// What the one-hour Change move of row `i` to block `new_tb_idx` needs.
pub open spec fn n1_pre(
    problem: Problem,
    idx: Indexed,
    i: int,
    new_tb_idx: int,
    mpd: Seq<(u8, u8)>,
    w: ConstraintWeights,
    ps: Seq<Placement>,
    s: GreedyState,
    pinned: Seq<LessonId>,
    caps: Seq<(SchoolClassId, u8)>,
    lahc_list: Seq<u32>,
    iter: u64,
    travel_clear: bool,
) -> bool {
    &&& 0 <= i < ps.len()
    &&& lesson_index(problem.lessons@, ps[i].lesson_id) >= 0
    &&& s.wf()
    &&& s.soft_pinned_blocks@.no_duplicates()
    &&& row_lesson(problem.lessons@, ps[i]).lesson_group_id is None && !pinned.contains(ps[i].lesson_id) ==> tb_index(
        problem.time_blocks@,
        ps[i].time_block_id,
    ) >= 0 && new_tb_idx < problem.time_blocks@.len()
    &&& n1_room(problem, idx, i, new_tb_idx, ps, s, pinned, caps) is Some && travel_clear ==> n1_ready(
        problem,
        s,
        mpd,
        w,
        ps,
        i,
        new_tb_idx,
        n1_room(problem, idx, i, new_tb_idx, ps, s, pinned, caps)->0,
        lahc_list,
        iter,
    )
}

/// What the one-hour Change move of row `i` to block `new_tb_idx` does,
/// from `(ps0, s0)` to `(ps1, s1)`, answering `accepted`.
pub open spec fn n1_post(
    problem: Problem,
    idx: Indexed,
    i: int,
    new_tb_idx: int,
    mpd: Seq<(u8, u8)>,
    w: ConstraintWeights,
    ps0: Seq<Placement>,
    s0: GreedyState,
    pinned: Seq<LessonId>,
    caps: Seq<(SchoolClassId, u8)>,
    lahc_list: Seq<u32>,
    iter: u64,
    ps1: Seq<Placement>,
    s1: GreedyState,
    accepted: bool,
    travel_clear: bool,
) -> bool {
    let room = n1_room(problem, idx, i, new_tb_idx, ps0, s0, pinned, caps);
    &&& accepted == (room is Some && travel_clear && n1_accepts(problem, s0, mpd, w, ps0, i, new_tb_idx, room->0, lahc_list, iter))
    &&& accepted ==> {
        let p = ps0[i];
        let l = row_lesson(problem.lessons@, p);
        let old_tb = row_block(problem.time_blocks@, p);
        let new_tb = problem.time_blocks@[new_tb_idx];
        &&& change_applied(
            ps0,
            ps1,
            s0,
            s1,
            i as usize,
            p,
            old_tb,
            new_tb,
            room->0,
            l.school_class_ids@,
            p.teacher_id,
            l.subject_id,
        )
        &&& s1.search_score_slice == clamp_u32(
            s0.search_score_slice + n1_slice_delta(problem, s0, mpd, w, l, p.teacher_id, old_tb, new_tb),
        )
        &&& s1.canonical_score == score_spec(problem, ps1, w, s0.soft_pinned_blocks@)
        &&& s1.soft_pinned_blocks@ == s0.soft_pinned_blocks@
    }
}

/// The lesson of row `i`.
pub open spec fn anchor_lesson(problem: Problem, ps: Seq<Placement>, i: int) -> Lesson {
    row_lesson(problem.lessons@, ps[i])
}

/// The day of row `i`'s block: the day the block leaves.
pub open spec fn anchor_day(problem: Problem, ps: Seq<Placement>, i: int) -> u8 {
    row_block(problem.time_blocks@, ps[i]).day_of_week
}

/// The block row of lowest position of row `i`'s lesson on that day; its
/// teacher and room are the block's.
pub open spec fn anchor_first(problem: Problem, ps: Seq<Placement>, i: int) -> int {
    block_first(ps, problem.time_blocks@, ps[i].lesson_id, anchor_day(problem, ps, i), ps.len() as int)
}

/// The window the block moves to: one block per hour from the position of
/// block `new_tb_idx` on its day.
pub open spec fn block_dests(
    problem: Problem,
    ps: Seq<Placement>,
    i: int,
    new_tb_idx: int,
    slots: Seq<((u8, u8), TimeBlockId)>,
) -> Seq<TimeBlockId> {
    let nt = problem.time_blocks@[new_tb_idx];
    window(slots, nt.day_of_week, nt.position, anchor_lesson(problem, ps, i).preferred_block_size as nat)
}

/// The blocks the block leaves.
pub open spec fn block_srcs(problem: Problem, ps: Seq<Placement>, i: int) -> Set<u128> {
    block_src_set(ps, problem.time_blocks@, ps[i].lesson_id, anchor_day(problem, ps, i))
}

/// The room the block takes at the window, given the lock of the
/// destination: the locked room when it fits, else none; with no lock the
/// block's own room when it fits, else the first room of `order` that
/// does.
pub open spec fn block_choice(
    rooms: Seq<Room>,
    order: Seq<usize>,
    idx: Indexed,
    used_room: Seq<(u128, u128)>,
    subject: SubjectId,
    src_room: RoomId,
    dests: Seq<TimeBlockId>,
    srcs: Set<u128>,
    lock: Option<RoomId>,
) -> Option<RoomId> {
    match lock {
        Some(r) => if room_fits(idx, used_room, subject, r, src_room, dests, srcs) {
            Some(r)
        } else {
            None
        },
        None => if room_fits(idx, used_room, subject, src_room, src_room, dests, srcs) {
            Some(src_room)
        } else {
            order_pick(rooms, order, idx, used_room, subject, src_room, dests, srcs)
        },
    }
}

/// The checks a block move passes before its room is chosen: the lesson is
/// neither grouped nor pinned, the destination is a lesson block, the
/// block's rows form one run, the window has a block at every offset and is
/// not the block's own, the window is free for the block's teacher and the
/// member classes, and a move to another day keeps the caps.
pub open spec fn block_checks(
    problem: Problem,
    idx: Indexed,
    i: int,
    new_tb_idx: int,
    ps: Seq<Placement>,
    s: GreedyState,
    pinned: Seq<LessonId>,
    caps: Seq<(SchoolClassId, u8)>,
    slots: Seq<((u8, u8), TimeBlockId)>,
) -> bool {
    let tbs = problem.time_blocks@;
    let l = anchor_lesson(problem, ps, i);
    let n = l.preferred_block_size as nat;
    let od = anchor_day(problem, ps, i);
    let nt = tbs[new_tb_idx];
    let f = anchor_first(problem, ps, i);
    &&& l.lesson_group_id is None
    &&& !pinned.contains(ps[i].lesson_id)
    &&& nt.kind == TimeBlockKind::Lesson
    &&& block_run(ps, tbs, ps[i].lesson_id, od, n)
    &&& dest_ok(slots, nt.day_of_week, nt.position, n)
    &&& !(nt.day_of_week == od && nt.position == row_pos(tbs, ps[f]))
    &&& window_free(
        idx,
        s,
        l.school_class_ids@,
        ps[f].teacher_id,
        block_dests(problem, ps, i, new_tb_idx, slots),
        block_srcs(problem, ps, i),
    )
    &&& block_caps(problem, s, caps, l, od, nt.day_of_week, n)
}

/// The same-room lock the destination day imposes on the block (none when
/// two locks disagree).
pub open spec fn block_lock(problem: Problem, ps: Seq<Placement>, i: int, new_tb_idx: int, s: GreedyState) -> Option<
    Option<RoomId>,
> {
    let l = anchor_lesson(problem, ps, i);
    let nd = problem.time_blocks@[new_tb_idx].day_of_week;
    dest_lock(
        s.locked_room@,
        l.school_class_ids@,
        nd,
        l.subject_id,
        anchor_day(problem, ps, i) == nd,
        l.preferred_block_size as u32,
    )
}

/// The room the block of row `i` takes moving to the window at block
/// `new_tb_idx`, or none when the move is infeasible.
pub open spec fn block_room(
    problem: Problem,
    idx: Indexed,
    i: int,
    new_tb_idx: int,
    ps: Seq<Placement>,
    s: GreedyState,
    pinned: Seq<LessonId>,
    caps: Seq<(SchoolClassId, u8)>,
    slots: Seq<((u8, u8), TimeBlockId)>,
    order: Seq<usize>,
) -> Option<RoomId> {
    if !block_checks(problem, idx, i, new_tb_idx, ps, s, pinned, caps, slots) {
        None
    } else {
        match block_lock(problem, ps, i, new_tb_idx, s) {
            None => None,
            Some(lock) => block_choice(
                problem.rooms@,
                order,
                idx,
                s.used_room@,
                anchor_lesson(problem, ps, i).subject_id,
                ps[anchor_first(problem, ps, i)].room_id,
                block_dests(problem, ps, i, new_tb_idx, slots),
                block_srcs(problem, ps, i),
                lock,
            ),
        }
    }
}

/// The placements after the block of row `i` moved to the window at block
/// `new_tb_idx` into `room`: the row at offset `k` from the block's lowest
/// position takes the window's block at offset `k`; teachers stay.
pub open spec fn block_moved(
    problem: Problem,
    ps: Seq<Placement>,
    i: int,
    new_tb_idx: int,
    slots: Seq<((u8, u8), TimeBlockId)>,
    room: RoomId,
) -> Seq<Placement> {
    let tbs = problem.time_blocks@;
    let nt = tbs[new_tb_idx];
    let od = anchor_day(problem, ps, i);
    let low = row_pos(tbs, ps[anchor_first(problem, ps, i)]);
    Seq::new(
        ps.len(),
        |j: int|
            if in_block(ps, tbs, ps[i].lesson_id, od, j) {
                Placement {
                    lesson_id: ps[j].lesson_id,
                    time_block_id: dest_slot(slots, nt.day_of_week, nt.position, row_pos(tbs, ps[j]) - low)->0,
                    room_id: room,
                    teacher_id: ps[j].teacher_id,
                }
            } else {
                ps[j]
            },
    )
}

/// The moved placements are accepted: their canonical score does not exceed
/// the current one or the late-acceptance entry of iteration `iter`.
pub open spec fn block_accepts(
    problem: Problem,
    w: ConstraintWeights,
    s: GreedyState,
    moved: Seq<Placement>,
    lahc_list: Seq<u32>,
    iter: u64,
) -> bool {
    let nc = score_spec(problem, moved, w, s.soft_pinned_blocks@);
    nc <= s.canonical_score || nc <= n1_prior(lahc_list, iter)
}

/// The bookkeeping after the block of classes `cs`, teacher `teacher` and
/// subject `subject` moved from blocks `srcs` on day `od` in room
/// `src_room` to blocks `dests` on day `nd` in room `room`, the placements
/// now being `moved`: the bookings of the old blocks are dropped and those
/// of the new ones made, the positions of the member classes and of the
/// teacher on both days are read afresh from `moved`, the locks and
/// counters move by `n` per class occurrence, and the rest stays.
pub open spec fn block_applied(
    os: GreedyState,
    ns: GreedyState,
    problem: Problem,
    moved: Seq<Placement>,
    cs: Seq<SchoolClassId>,
    teacher: TeacherId,
    od: u8,
    nd: u8,
    subject: SubjectId,
    srcs: Set<u128>,
    dests: Set<u128>,
    src_room: RoomId,
    room: RoomId,
    n: nat,
) -> bool {
    &&& ns.used_teacher@.to_set() == os.used_teacher@.to_set().difference(owner_cells(teacher.0, srcs)).union(
        owner_cells(teacher.0, dests),
    )
    &&& ns.used_class@.to_set() == os.used_class@.to_set().difference(classes_cells(cs, srcs)).union(
        classes_cells(cs, dests),
    )
    &&& ns.used_room@.to_set() == os.used_room@.to_set().difference(owner_cells(src_room.0, srcs)).union(
        owner_cells(room.0, dests),
    )
    &&& forall|key: (u128, u8)|
        #[trigger] ns.class_positions.lookup(key) == if cs.contains(SchoolClassId(key.0)) && (key.1 == od || key.1
            == nd) {
            sorted_positions(class_day_set(problem.lessons@, problem.time_blocks@, moved, SchoolClassId(key.0), key.1))
        } else {
            os.class_positions.lookup(key)
        }
    &&& forall|key: (u128, u8)|
        #[trigger] ns.teacher_positions.lookup(key) == if key.0 == teacher.0 && (key.1 == od || key.1 == nd) {
            sorted_positions(teacher_day_set(problem.time_blocks@, moved, teacher, key.1))
        } else {
            os.teacher_positions.lookup(key)
        }
    &&& forall|k: (SchoolClassId, u8, SubjectId)|
        #[trigger] map_get(ns.locked_room@, k) == if k.2 == subject {
            lock_block(map_get(os.locked_room@, k), k.1, od, nd, occ(cs, k.0), n, room)
        } else {
            map_get(os.locked_room@, k)
        }
    &&& forall|k: (SchoolClassId, u8, SubjectId)|
        #[trigger] map_get(ns.subject_hours_by_class_day@, k) == if k.2 == subject {
            count_block(map_get(os.subject_hours_by_class_day@, k), k.1, od, nd, occ(cs, k.0), n)
        } else {
            map_get(os.subject_hours_by_class_day@, k)
        }
    &&& forall|k: (SchoolClassId, u8)|
        #[trigger] map_get(ns.lessons_by_class_day@, k) == count_block(
            map_get(os.lessons_by_class_day@, k),
            k.1,
            od,
            nd,
            occ(cs, k.0),
            n,
        )
    &&& ns.hours_by_teacher@ == os.hours_by_teacher@
    &&& ns.class_subject_teacher@ == os.class_subject_teacher@
    &&& ns.soft_pinned_blocks@ == os.soft_pinned_blocks@
}

/// What the move of a block longer than one hour needs: once the lesson is
/// found movable, its row's block resolves, no two block rows sit at
/// position 255, and the room ordering is walked only over room indices;
/// once a room is found, the lesson needs no travel time around it, the
/// moved placements resolve for the position
/// rebuild and can be scored, the list holds the iteration's entry, and a
/// move to another day fits every lock and counter there.
pub open spec fn block_ready(
    problem: Problem,
    idx: Indexed,
    i: int,
    new_tb_idx: int,
    ps: Seq<Placement>,
    s: GreedyState,
    pinned: Seq<LessonId>,
    caps: Seq<(SchoolClassId, u8)>,
    slots: Seq<((u8, u8), TimeBlockId)>,
    order: Seq<usize>,
    w: ConstraintWeights,
    lahc_list: Seq<u32>,
    iter: u64,
    travel_clear: bool,
) -> bool {
    let tbs = problem.time_blocks@;
    let l = anchor_lesson(problem, ps, i);
    let n = l.preferred_block_size as nat;
    let cs = l.school_class_ids@;
    let lid = ps[i].lesson_id;
    let od = anchor_day(problem, ps, i);
    let nd = tbs[new_tb_idx].day_of_week;
    let f = anchor_first(problem, ps, i);
    let dests = block_dests(problem, ps, i, new_tb_idx, slots);
    let srcs = block_srcs(problem, ps, i);
    let room = block_room(problem, idx, i, new_tb_idx, ps, s, pinned, caps, slots, order);
    &&& (l.lesson_group_id is None && !pinned.contains(lid) && tbs[new_tb_idx].kind == TimeBlockKind::Lesson) ==> {
        &&& tb_index(tbs, ps[i].time_block_id) >= 0
        &&& block_count(ps, tbs, lid, od, ps.len() as int) == n ==> !block_tops_out(ps, tbs, lid, od)
        &&& (block_checks(problem, idx, i, new_tb_idx, ps, s, pinned, caps, slots) && block_lock(
            problem,
            ps,
            i,
            new_tb_idx,
            s,
        ) == Some(None::<RoomId>) && !room_fits(idx, s.used_room@, l.subject_id, ps[f].room_id, ps[f].room_id, dests, srcs))
            ==> order_safe(problem.rooms@, order, idx, s.used_room@, l.subject_id, ps[f].room_id, dests, srcs)
    }
    &&& room is Some && travel_clear ==> {
        let moved = block_moved(problem, ps, i, new_tb_idx, slots, room->0);
        &&& forall|c: SchoolClassId| #[trigger] cs.contains(c) ==> class_rows_resolve(problem.lessons@, tbs, moved, c)
        &&& teacher_rows_resolve(tbs, moved, ps[f].teacher_id)
        &&& w != crate::types::zero_weights() ==> score_inputs_ok(problem, moved, w, s.soft_pinned_blocks@)
        &&& slice_sums_fit(problem, moved, w)
        &&& (iter as usize) as int % 500 < lahc_list.len()
        &&& od != nd ==> forall|c: SchoolClassId|
            #[trigger] cs.contains(c) ==> fits_lock(map_get(s.locked_room@, (c, nd, l.subject_id)), n * occ(cs, c))
                && fits_u8(map_get(s.subject_hours_by_class_day@, (c, nd, l.subject_id)), n * occ(cs, c)) && fits_u8(
                map_get(s.lessons_by_class_day@, (c, nd)),
                n * occ(cs, c),
            )
    }
}

/// The blocks of the scanned rows.
fn row_blocks(ps: &Vec<Placement>, rows: &Vec<usize>) -> (v: Vec<u128>)
    requires
        forall|k: int| 0 <= k < rows@.len() ==> rows@[k] < ps@.len(),
    ensures
        v@.len() == rows@.len(),
        forall|k: int| 0 <= k < rows@.len() ==> v@[k] == ps@[rows@[k] as int].time_block_id.0,
{
    let mut v: Vec<u128> = Vec::new();
    let mut k: usize = 0;
    while k < rows.len()
        invariant
            k <= rows@.len(),
            v@.len() == k,
            forall|m: int| 0 <= m < rows@.len() ==> rows@[m] < ps@.len(),
            forall|m: int| 0 <= m < k ==> v@[m] == ps@[rows@[m] as int].time_block_id.0,
        decreases rows@.len() - k,
    {
        v.push(ps[rows[k]].time_block_id.0);
        k = k + 1;
    }
    v
}

/// The identifiers of a list of blocks.
fn block_ids(bs: &Vec<TimeBlockId>) -> (v: Vec<u128>)
    ensures
        v@.len() == bs@.len(),
        forall|k: int| 0 <= k < bs@.len() ==> v@[k] == bs@[k].0,
{
    let mut v: Vec<u128> = Vec::new();
    let mut k: usize = 0;
    while k < bs.len()
        invariant
            k <= bs@.len(),
            v@.len() == k,
            forall|m: int| 0 <= m < k ==> v@[m] == bs@[m].0,
        decreases bs@.len() - k,
    {
        v.push(bs[k].0);
        k = k + 1;
    }
    v
}

/// The identifiers of a list of classes.
pub(crate) fn class_ids(cs: &Vec<SchoolClassId>) -> (v: Vec<u128>)
    ensures
        v@.len() == cs@.len(),
        forall|k: int| 0 <= k < cs@.len() ==> v@[k] == cs@[k].0,
{
    let mut v: Vec<u128> = Vec::new();
    let mut k: usize = 0;
    while k < cs.len()
        invariant
            k <= cs@.len(),
            v@.len() == k,
            forall|m: int| 0 <= m < k ==> v@[m] == cs@[m].0,
        decreases cs@.len() - k,
    {
        v.push(cs[k].0);
        k = k + 1;
    }
    v
}

/// The placements with every block row moved to the window block at its
/// offset from `low`, into `room`.
fn build_moved(
    tbs: &Vec<TimeBlock>,
    ps: &Vec<Placement>,
    lid: LessonId,
    od: u8,
    low: u8,
    dests: &Vec<TimeBlockId>,
    room: RoomId,
) -> (v: Vec<Placement>)
    requires
        forall|j: int|
            #[trigger] in_block(ps@, tbs@, lid, od, j) ==> low <= row_pos(tbs@, ps@[j]) < low + dests@.len(),
    ensures
        v@ == Seq::new(
            ps@.len(),
            |j: int|
                if in_block(ps@, tbs@, lid, od, j) {
                    Placement {
                        lesson_id: ps@[j].lesson_id,
                        time_block_id: dests@[row_pos(tbs@, ps@[j]) - low],
                        room_id: room,
                        teacher_id: ps@[j].teacher_id,
                    }
                } else {
                    ps@[j]
                },
        ),
{
    let ghost target = Seq::new(
        ps@.len(),
        |j: int|
            if in_block(ps@, tbs@, lid, od, j) {
                Placement {
                    lesson_id: ps@[j].lesson_id,
                    time_block_id: dests@[row_pos(tbs@, ps@[j]) - low],
                    room_id: room,
                    teacher_id: ps@[j].teacher_id,
                }
            } else {
                ps@[j]
            },
    );
    let mut v: Vec<Placement> = Vec::new();
    let mut j: usize = 0;
    while j < ps.len()
        invariant
            j <= ps@.len(),
            v@.len() == j,
            target.len() == ps@.len(),
            forall|m: int| 0 <= m < j ==> v@[m] == target[m],
            forall|m: int|
                #[trigger] in_block(ps@, tbs@, lid, od, m) ==> low <= row_pos(tbs@, ps@[m]) < low + dests@.len(),
            target == Seq::new(
                ps@.len(),
                |m: int|
                    if in_block(ps@, tbs@, lid, od, m) {
                        Placement {
                            lesson_id: ps@[m].lesson_id,
                            time_block_id: dests@[row_pos(tbs@, ps@[m]) - low],
                            room_id: room,
                            teacher_id: ps@[m].teacher_id,
                        }
                    } else {
                        ps@[m]
                    },
            ),
        decreases ps@.len() - j,
    {
        let p = ps[j];
        let mut q = p;
        if p.lesson_id == lid {
            match find_tb(tbs, p.time_block_id) {
                Some(t) => {
                    if tbs[t].day_of_week == od {
                        assert(in_block(ps@, tbs@, lid, od, j as int));
                        let k: usize = (tbs[t].position - low) as usize;
                        q = Placement { lesson_id: p.lesson_id, time_block_id: dests[k], room_id: room, teacher_id: p.teacher_id };
                    }
                },
                None => {},
            }
        }
        assert(q == target[j as int]);
        v.push(q);
        j = j + 1;
    }
    assert(v@ =~= target);
    v
}

pub(crate) proof fn lemma_pairs_owner(owner: u128, ov: Seq<u128>, bv: Seq<u128>, bs: Set<u128>)
    requires
        ov == seq![owner],
        forall|b: u128| bv.contains(b) <==> bs.contains(b),
    ensures
        pairs(ov, bv) == owner_cells(owner, bs),
{
    assert forall|x: (u128, u128)| pairs(ov, bv).contains(x) <==> owner_cells(owner, bs).contains(x) by {
        if x.0 == owner {
            assert(ov[0] == x.0);
        }
    }
    assert(pairs(ov, bv) =~= owner_cells(owner, bs));
}

pub(crate) proof fn lemma_pairs_classes(cs: Seq<SchoolClassId>, cv: Seq<u128>, bv: Seq<u128>, bs: Set<u128>)
    requires
        cv.len() == cs.len(),
        forall|k: int| 0 <= k < cs.len() ==> cv[k] == cs[k].0,
        forall|b: u128| bv.contains(b) <==> bs.contains(b),
    ensures
        pairs(cv, bv) == classes_cells(cs, bs),
{
    assert forall|x: (u128, u128)| pairs(cv, bv).contains(x) <==> classes_cells(cs, bs).contains(x) by {
        if cv.contains(x.0) {
            let k = choose|k: int| 0 <= k < cv.len() && cv[k] == x.0;
            assert(cs[k] == SchoolClassId(x.0));
        }
        if cs.contains(SchoolClassId(x.0)) {
            let k = choose|k: int| 0 <= k < cs.len() && cs[k] == SchoolClassId(x.0);
            assert(cv[k] == x.0);
        }
    }
    assert(pairs(cv, bv) =~= classes_cells(cs, bs));
}

/// What `try_change_block_move` leaves, from `(ps0, s0)` to `(ps1, s1)`, answering
/// `accepted`: its postcondition.
pub open spec fn block_move_post(
    problem: Problem,
    idx: Indexed,
    placement_idx: usize,
    new_tb_idx: usize,
    travel_clear: bool,
    max_position_per_day: Seq<(u8, u8)>,
    weights: ConstraintWeights,
    pinned: Seq<LessonId>,
    class_max_lessons_per_day: Seq<(SchoolClassId, u8)>,
    lahc_list: Seq<u32>,
    iter: u64,
    tb_by_day_pos: Seq<((u8, u8), TimeBlockId)>,
    room_order: Seq<usize>,
    ps0: Seq<Placement>,
    s0: GreedyState,
    ps1: Seq<Placement>,
    s1: GreedyState,
    accepted: bool,
) -> bool {
    &&& (s1.wf())
    &&& (!accepted ==> ps1 == ps0 && s1 == s0)
    &&& (anchor_lesson(problem, ps0, placement_idx as int).preferred_block_size == 1 ==> n1_post(
            problem,
            idx,
            placement_idx as int,
            new_tb_idx as int,
            max_position_per_day,
            weights,
            ps0,
            s0,
            pinned,
            class_max_lessons_per_day,
            lahc_list,
            iter,
            ps1,
            s1,
            accepted,
            travel_clear,
        ))
    &&& (anchor_lesson(problem, ps0, placement_idx as int).preferred_block_size != 1 ==> {
            let room = block_room(
                problem,
                idx,
                placement_idx as int,
                new_tb_idx as int,
                ps0,
                s0,
                pinned,
                class_max_lessons_per_day,
                tb_by_day_pos,
                room_order,
            );
            let moved = block_moved(problem, ps0, placement_idx as int, new_tb_idx as int, tb_by_day_pos, room->0);
            let l = anchor_lesson(problem, ps0, placement_idx as int);
            let f = anchor_first(problem, ps0, placement_idx as int);
            &&& accepted == (room is Some && travel_clear && block_accepts(problem, weights, s0, moved, lahc_list, iter))
            &&& accepted ==> {
                &&& ps1 == moved
                &&& block_applied(
                    s0,
                    s1,
                    problem,
                    moved,
                    l.school_class_ids@,
                    ps0[f].teacher_id,
                    anchor_day(problem, ps0, placement_idx as int),
                    problem.time_blocks@[new_tb_idx as int].day_of_week,
                    l.subject_id,
                    block_srcs(problem, ps0, placement_idx as int),
                    blocks_of(block_dests(problem, ps0, placement_idx as int, new_tb_idx as int, tb_by_day_pos)),
                    ps0[f].room_id,
                    room->0,
                    l.preferred_block_size as nat,
                )
                &&& s1.canonical_score == score_spec(problem, moved, weights, s0.soft_pinned_blocks@)
                &&& s1.search_score_slice == slice_spec(problem, moved, weights)
            }
        })
}

/// What `try_change_block_move` needs of `(ps0, s0)`: its precondition.
pub open spec fn block_move_ready(
    problem: Problem,
    idx: Indexed,
    placement_idx: usize,
    new_tb_idx: usize,
    travel_clear: bool,
    max_position_per_day: Seq<(u8, u8)>,
    weights: ConstraintWeights,
    pinned: Seq<LessonId>,
    class_max_lessons_per_day: Seq<(SchoolClassId, u8)>,
    lahc_list: Seq<u32>,
    iter: u64,
    tb_by_day_pos: Seq<((u8, u8), TimeBlockId)>,
    room_order: Seq<usize>,
    ps0: Seq<Placement>,
    s0: GreedyState,
) -> bool {
    &&& (placement_idx < ps0.len())
    &&& (lesson_index(problem.lessons@, ps0[placement_idx as int].lesson_id) >= 0)
    &&& (s0.wf())
    &&& (s0.soft_pinned_blocks@.no_duplicates())
    &&& (anchor_lesson(problem, ps0, placement_idx as int).lesson_group_id is None && !pinned.contains(
            ps0[placement_idx as int].lesson_id,
        ) ==> new_tb_idx < problem.time_blocks@.len())
    &&& (anchor_lesson(problem, ps0, placement_idx as int).preferred_block_size == 1 ==> n1_pre(
            problem,
            idx,
            placement_idx as int,
            new_tb_idx as int,
            max_position_per_day,
            weights,
            ps0,
            s0,
            pinned,
            class_max_lessons_per_day,
            lahc_list,
            iter,
            travel_clear,
        ))
    &&& (anchor_lesson(problem, ps0, placement_idx as int).preferred_block_size != 1 ==> block_ready(
            problem,
            idx,
            placement_idx as int,
            new_tb_idx as int,
            ps0,
            s0,
            pinned,
            class_max_lessons_per_day,
            tb_by_day_pos,
            room_order,
            weights,
            lahc_list,
            iter,
            travel_clear,
        ))
}

/// Try the Change move of the block of row `placement_idx` (all hours of
/// its lesson on its day) to the window of lesson blocks starting at block
/// `new_tb_idx`. A one-hour block goes through `try_change_move_n1` and is
/// described by `n1_post`. A longer block is feasible as `block_room`
/// says, is scored afresh on the moved placements (`block_moved`) and is
/// accepted when the new canonical score does not exceed the current one
/// or the late-acceptance entry of iteration `iter`; an accepted move
/// leaves the moved placements, the bookkeeping that `block_applied`
/// describes and the new canonical score and slice. A rejected move changes
/// nothing. Lessons, blocks, subjects and rooms resolve through the
/// problem; `tb_by_day_pos` maps `(day, position)` to the lesson block there
/// (first entry per key); `room_order` lists room indices in the order they
/// are tried. `travel_clear` is the travel-buffer verdict for the lesson and
/// its teacher at the destination window's first block (the block's own
/// rows leaving): false when the move would leave too little travel time
/// around the lesson, which rejects the move.
pub fn try_change_block_move(
    problem: &Problem,
    idx: &Indexed,
    placement_idx: usize,
    new_tb_idx: usize,
    travel_clear: bool,
    max_position_per_day: &Vec<(u8, u8)>,
    weights: &ConstraintWeights,
    placements: &mut Vec<Placement>,
    state: &mut GreedyState,
    pinned: &Vec<LessonId>,
    class_max_lessons_per_day: &Vec<(SchoolClassId, u8)>,
    lahc_list: &[u32],
    iter: u64,
    tb_by_day_pos: &Vec<((u8, u8), TimeBlockId)>,
    room_order: &Vec<usize>,
) -> (accepted: bool)
    requires
        placement_idx < old(placements)@.len(),
        lesson_index(problem.lessons@, old(placements)@[placement_idx as int].lesson_id) >= 0,
        old(state).wf(),
        old(state).soft_pinned_blocks@.no_duplicates(),
        anchor_lesson(*problem, old(placements)@, placement_idx as int).lesson_group_id is None && !pinned@.contains(
            old(placements)@[placement_idx as int].lesson_id,
        ) ==> new_tb_idx < problem.time_blocks@.len(),
        anchor_lesson(*problem, old(placements)@, placement_idx as int).preferred_block_size == 1 ==> n1_pre(
            *problem,
            *idx,
            placement_idx as int,
            new_tb_idx as int,
            max_position_per_day@,
            *weights,
            old(placements)@,
            *old(state),
            pinned@,
            class_max_lessons_per_day@,
            lahc_list@,
            iter,
            travel_clear,
        ),
        anchor_lesson(*problem, old(placements)@, placement_idx as int).preferred_block_size != 1 ==> block_ready(
            *problem,
            *idx,
            placement_idx as int,
            new_tb_idx as int,
            old(placements)@,
            *old(state),
            pinned@,
            class_max_lessons_per_day@,
            tb_by_day_pos@,
            room_order@,
            *weights,
            lahc_list@,
            iter,
            travel_clear,
        ),
    ensures
        final(state).wf(),
        !accepted ==> final(placements)@ == old(placements)@ && *final(state) == *old(state),
        anchor_lesson(*problem, old(placements)@, placement_idx as int).preferred_block_size == 1 ==> n1_post(
            *problem,
            *idx,
            placement_idx as int,
            new_tb_idx as int,
            max_position_per_day@,
            *weights,
            old(placements)@,
            *old(state),
            pinned@,
            class_max_lessons_per_day@,
            lahc_list@,
            iter,
            final(placements)@,
            *final(state),
            accepted,
            travel_clear,
        ),
        anchor_lesson(*problem, old(placements)@, placement_idx as int).preferred_block_size != 1 ==> {
            let room = block_room(
                *problem,
                *idx,
                placement_idx as int,
                new_tb_idx as int,
                old(placements)@,
                *old(state),
                pinned@,
                class_max_lessons_per_day@,
                tb_by_day_pos@,
                room_order@,
            );
            let moved = block_moved(*problem, old(placements)@, placement_idx as int, new_tb_idx as int, tb_by_day_pos@, room->0);
            let l = anchor_lesson(*problem, old(placements)@, placement_idx as int);
            let f = anchor_first(*problem, old(placements)@, placement_idx as int);
            &&& accepted == (room is Some && travel_clear && block_accepts(*problem, *weights, *old(state), moved, lahc_list@, iter))
            &&& accepted ==> {
                &&& final(placements)@ == moved
                &&& block_applied(
                    *old(state),
                    *final(state),
                    *problem,
                    moved,
                    l.school_class_ids@,
                    old(placements)@[f].teacher_id,
                    anchor_day(*problem, old(placements)@, placement_idx as int),
                    problem.time_blocks@[new_tb_idx as int].day_of_week,
                    l.subject_id,
                    block_srcs(*problem, old(placements)@, placement_idx as int),
                    blocks_of(block_dests(*problem, old(placements)@, placement_idx as int, new_tb_idx as int, tb_by_day_pos@)),
                    old(placements)@[f].room_id,
                    room->0,
                    l.preferred_block_size as nat,
                )
                &&& final(state).canonical_score == score_spec(*problem, moved, *weights, old(state).soft_pinned_blocks@)
                &&& final(state).search_score_slice == slice_spec(*problem, moved, *weights)
            }
        },
        block_move_post(*problem, *idx, placement_idx, new_tb_idx, travel_clear, max_position_per_day@, *weights, pinned@, class_max_lessons_per_day@, lahc_list@, iter, tb_by_day_pos@, room_order@, old(placements)@, *old(state), final(placements)@, *final(state), accepted),
        accepted && anchor_lesson(*problem, old(placements)@, placement_idx as int).preferred_block_size == 1
            ==> !idx.teacher_blocked@.contains(
            (old(placements)@[placement_idx as int].teacher_id.0, problem.time_blocks@[new_tb_idx as int].id.0),
        ),
        accepted && anchor_lesson(*problem, old(placements)@, placement_idx as int).preferred_block_size != 1
            ==> forall|k: int|
            0 <= k < block_dests(*problem, old(placements)@, placement_idx as int, new_tb_idx as int, tb_by_day_pos@).len()
                ==> !idx.teacher_blocked@.contains(
                (
                    old(placements)@[anchor_first(*problem, old(placements)@, placement_idx as int)].teacher_id.0,
                    (#[trigger] block_dests(*problem, old(placements)@, placement_idx as int, new_tb_idx as int, tb_by_day_pos@)[k]).0,
                ),
            ),
        accepted && anchor_lesson(*problem, old(placements)@, placement_idx as int).preferred_block_size != 1 ==> {
            let ps0 = old(placements)@;
            let s0 = *old(state);
            let i = placement_idx as int;
            let l = anchor_lesson(*problem, ps0, i);
            let f = anchor_first(*problem, ps0, i);
            let r = final(placements)@[i].room_id;
            let d = block_dests(*problem, ps0, i, new_tb_idx as int, tb_by_day_pos@);
            let srcs = block_srcs(*problem, ps0, i);
            &&& l.lesson_group_id is None && !pinned@.contains(ps0[i].lesson_id)
            &&& problem.time_blocks@[new_tb_idx as int].kind == TimeBlockKind::Lesson
            &&& suits(idx.room_subject@, r.0, l.subject_id.0)
            &&& forall|c: SchoolClassId|
                #[trigger] l.school_class_ids@.contains(c) ==> {
                    let nd = problem.time_blocks@[new_tb_idx as int].day_of_week;
                    let v = map_get(s0.locked_room@, (c, nd, l.subject_id));
                    v is Some && !(anchor_day(*problem, ps0, i) == nd && v.unwrap().1 == l.preferred_block_size as u32) ==> r
                        == v.unwrap().0
                }
            &&& anchor_day(*problem, ps0, i) != problem.time_blocks@[new_tb_idx as int].day_of_week ==> forall|c: SchoolClassId|
                #[trigger] l.school_class_ids@.contains(c) ==> {
                    let nd = problem.time_blocks@[new_tb_idx as int].day_of_week;
                    &&& count_or_zero(map_get(s0.subject_hours_by_class_day@, (c, nd, l.subject_id))) + l.preferred_block_size
                        <= first_subject_cap(problem.subjects@, l.subject_id)
                    &&& map_get(class_max_lessons_per_day@, c) matches Some(cap) ==> count_or_zero(
                        map_get(s0.lessons_by_class_day@, (c, nd)),
                    ) + l.preferred_block_size <= cap
                }
            &&& forall|k: int|
                0 <= k < d.len() ==> {
                    let b = (#[trigger] d[k]).0;
                    &&& s0.used_teacher@.contains((ps0[f].teacher_id.0, b)) ==> srcs.contains(b)
                    &&& forall|c: SchoolClassId|
                        #[trigger] l.school_class_ids@.contains(c) && s0.used_class@.contains((c.0, b)) ==> srcs.contains(b)
                    &&& !idx.room_blocked@.contains((r.0, b))
                    &&& s0.used_room@.contains((r.0, b)) ==> r == ps0[f].room_id && srcs.contains(b)
                }
        },
{
    let ghost ps0 = placements@;
    let ghost s0 = *state;
    let ghost tbs = problem.time_blocks@;
    let ghost i = placement_idx as int;
    proof {
        if block_room(*problem, *idx, i, new_tb_idx as int, ps0, s0, pinned@, class_max_lessons_per_day@, tb_by_day_pos@, room_order@) is Some {
            lemma_block_move_lands_in_free_window(
                *problem,
                *idx,
                i,
                new_tb_idx as int,
                ps0,
                s0,
                pinned@,
                class_max_lessons_per_day@,
                tb_by_day_pos@,
                room_order@,
            );
            if anchor_lesson(*problem, ps0, i).preferred_block_size != 1 {
                lemma_block_move_keeps_one_room(*problem, ps0, i, new_tb_idx as int, tb_by_day_pos@, block_room(*problem, *idx, i, new_tb_idx as int, ps0, s0, pinned@, class_max_lessons_per_day@, tb_by_day_pos@, room_order@)->0);
            }
        }
    }
    let p = placements[placement_idx];
    let li = match find_lesson(&problem.lessons, p.lesson_id) {
        Some(li) => li,
        None => {
            return false;
        },
    };
    let lesson = &problem.lessons[li];
    assert(*lesson == anchor_lesson(*problem, ps0, i));
    let n = lesson.preferred_block_size;
    if lesson.lesson_group_id.is_some() {
        return false;
    }
    if contains_lesson(pinned, p.lesson_id) {
        return false;
    }
    let new_tb = problem.time_blocks[new_tb_idx];
    if new_tb.kind != TimeBlockKind::Lesson {
        return false;
    }
    if n == 1 {
        return try_change_move_n1(
            problem,
            idx,
            placement_idx,
            new_tb_idx,
            travel_clear,
            max_position_per_day,
            weights,
            placements,
            state,
            pinned,
            class_max_lessons_per_day,
            lahc_list,
            iter,
        );
    }
    let oti = match find_tb(&problem.time_blocks, p.time_block_id) {
        Some(t) => t,
        None => {
            return false;
        },
    };
    let od = problem.time_blocks[oti].day_of_week;
    let lid = p.lesson_id;
    assert(od == anchor_day(*problem, ps0, i));
    assert(in_block(ps0, tbs, lid, od, i));
    let (rows, poss, first) = scan_block(&problem.time_blocks, placements, lid, od);
    proof {
        lemma_block_first(ps0, tbs, lid, od, ps0.len() as int);
    }
    let f = match first {
        Some(f) => f,
        None => {
            return false;
        },
    };
    assert(f as int == anchor_first(*problem, ps0, i));
    let fti = match find_tb(&problem.time_blocks, placements[f].time_block_id) {
        Some(t) => t,
        None => {
            return false;
        },
    };
    let low = problem.time_blocks[fti].position;
    assert(low == row_pos(tbs, ps0[f as int]));
    proof {
        lemma_run_iff(ps0, tbs, lid, od, rows@, poss@, n as nat);
    }
    if !run_ok(&poss, low, n) {
        return false;
    }
    let teacher = placements[f].teacher_id;
    let src_room = placements[f].room_id;
    let nd = new_tb.day_of_week;
    let start = new_tb.position;
    let dests = match dest_window(tb_by_day_pos, nd, start, n) {
        Some(v) => v,
        None => {
            return false;
        },
    };
    if nd == od && start == low {
        return false;
    }
    let srcs = row_blocks(placements, &rows);
    proof {
        assert forall|b: u128| srcs@.to_set().contains(b) <==> block_srcs(*problem, ps0, i).contains(b) by {
            if srcs@.to_set().contains(b) {
                assert(srcs@.contains(b));
                let k = choose|k: int| 0 <= k < srcs@.len() && srcs@[k] == b;
                assert(in_block(ps0, tbs, lid, od, rows@[k] as int));
            }
            if block_srcs(*problem, ps0, i).contains(b) {
                let j = choose|j: int| #[trigger] in_block(ps0, tbs, lid, od, j) && ps0[j].time_block_id.0 == b;
                let k = choose|k: int| 0 <= k < rows@.len() && rows@[k] == j;
                assert(srcs@[k] == b);
                assert(srcs@.contains(b));
            }
        }
        assert(srcs@.to_set() =~= block_srcs(*problem, ps0, i));
    }
    let cs = &lesson.school_class_ids;
    if !window_free_exec(idx, state, cs, teacher, &dests, &srcs) {
        return false;
    }
    if !block_caps_exec(problem, state, class_max_lessons_per_day, lesson, od, nd, n) {
        return false;
    }
    assert(block_checks(*problem, *idx, i, new_tb_idx as int, ps0, s0, pinned@, class_max_lessons_per_day@, tb_by_day_pos@));
    let lock = match dest_lock_exec(&state.locked_room, cs, nd, lesson.subject_id, od == nd, n as u32) {
        Some(l) => l,
        None => {
            return false;
        },
    };
    let room = match lock {
        Some(r) => {
            if room_fits_exec(idx, &state.used_room, lesson.subject_id, r, src_room, &dests, &srcs) {
                r
            } else {
                return false;
            }
        },
        None => {
            if room_fits_exec(idx, &state.used_room, lesson.subject_id, src_room, src_room, &dests, &srcs) {
                src_room
            } else {
                match order_pick_exec(&problem.rooms, room_order, idx, &state.used_room, lesson.subject_id, src_room, &dests, &srcs) {
                    Some(r) => r,
                    None => {
                        return false;
                    },
                }
            }
        },
    };
    assert(block_room(*problem, *idx, i, new_tb_idx as int, ps0, s0, pinned@, class_max_lessons_per_day@, tb_by_day_pos@, room_order@) == Some(room));
    if !travel_clear {
        return false;
    }
    proof {
        assert forall|j: int| #[trigger] in_block(ps0, tbs, lid, od, j) implies low <= row_pos(tbs, ps0[j]) < low + dests@.len() by {
        }
    }
    let moved = build_moved(&problem.time_blocks, placements, lid, od, low, &dests, room);
    proof {
        let target = block_moved(*problem, ps0, i, new_tb_idx as int, tb_by_day_pos@, room);
        assert forall|j: int| 0 <= j < ps0.len() implies moved@[j] == target[j] by {
            if in_block(ps0, tbs, lid, od, j) {
                let k = row_pos(tbs, ps0[j]) - low;
                assert(0 <= k < n);
                assert(dests@[k] == dest_slot(tb_by_day_pos@, nd, start, k)->0);
            }
        }
        assert(moved@ =~= target);
    }
    let nc = score_solution(problem, moved.as_slice(), weights, state.soft_pinned_blocks.as_slice());
    let nslice = slice_recompute(problem, moved.as_slice(), weights);
    let prior = lahc_list[(iter as usize) % 500];
    if !(nc <= state.canonical_score || nc <= prior) {
        return false;
    }
    let mut tv: Vec<u128> = Vec::new();
    tv.push(teacher.0);
    let mut rv0: Vec<u128> = Vec::new();
    rv0.push(src_room.0);
    let mut rv1: Vec<u128> = Vec::new();
    rv1.push(room.0);
    let dv = block_ids(&dests);
    let cv = class_ids(cs);
    proof {
        assert(tv@ =~= seq![teacher.0]);
        assert(rv0@ =~= seq![src_room.0]);
        assert(rv1@ =~= seq![room.0]);
        let dset = blocks_of(dests@);
        assert forall|b: u128| dv@.contains(b) <==> dset.contains(b) by {
            if dv@.contains(b) {
                let k = choose|k: int| 0 <= k < dv@.len() && dv@[k] == b;
                assert(dests@[k].0 == b);
            }
            if dset.contains(b) {
                let k = choose|k: int| 0 <= k < dests@.len() && (#[trigger] dests@[k]).0 == b;
                assert(dv@[k] == b);
            }
        }
        assert forall|b: u128| srcs@.contains(b) <==> block_srcs(*problem, ps0, i).contains(b) by {
            assert(srcs@.to_set().contains(b) == srcs@.contains(b));
        }
        lemma_pairs_owner(teacher.0, tv@, srcs@, block_srcs(*problem, ps0, i));
        lemma_pairs_owner(teacher.0, tv@, dv@, dset);
        lemma_pairs_owner(src_room.0, rv0@, srcs@, block_srcs(*problem, ps0, i));
        lemma_pairs_owner(room.0, rv1@, dv@, dset);
        lemma_pairs_classes(cs@, cv@, srcs@, block_srcs(*problem, ps0, i));
        lemma_pairs_classes(cs@, cv@, dv@, dset);
    }
    unbook_pairs(&mut state.used_teacher, &tv, &srcs);
    book_pairs(&mut state.used_teacher, &tv, &dv);
    unbook_pairs(&mut state.used_class, &cv, &srcs);
    book_pairs(&mut state.used_class, &cv, &dv);
    unbook_pairs(&mut state.used_room, &rv0, &srcs);
    book_pairs(&mut state.used_room, &rv1, &dv);
    rebuild_class_days(&mut state.class_positions, problem, &moved, cs, od, nd);
    let vo = teacher_day_positions(&problem.time_blocks, &moved, teacher, od);
    put_positions(&mut state.teacher_positions, teacher.0, od, vo, Ghost(teacher_day_set(tbs, moved@, teacher, od)));
    let vn = teacher_day_positions(&problem.time_blocks, &moved, teacher, nd);
    put_positions(&mut state.teacher_positions, teacher.0, nd, vn, Ghost(teacher_day_set(tbs, moved@, teacher, nd)));
    block_move_locks(&mut state.locked_room, cs, od, nd, lesson.subject_id, room, n);
    block_move_counters(&mut state.subject_hours_by_class_day, &mut state.lessons_by_class_day, cs, od, nd, lesson.subject_id, n);
    state.canonical_score = nc;
    state.search_score_slice = nslice;
    *placements = moved;
    true
}

/// A block move keeps the block together in one room: every row of the
/// block lands on a block of the window, in the chosen room, with its
/// lesson and teacher; every other row stays as it was.
pub proof fn lemma_block_move_keeps_one_room(
    problem: Problem,
    ps: Seq<Placement>,
    i: int,
    new_tb_idx: int,
    slots: Seq<((u8, u8), TimeBlockId)>,
    room: RoomId,
)
    requires
        0 <= i < ps.len(),
        tb_index(problem.time_blocks@, ps[i].time_block_id) >= 0,
        block_run(
            ps,
            problem.time_blocks@,
            ps[i].lesson_id,
            anchor_day(problem, ps, i),
            anchor_lesson(problem, ps, i).preferred_block_size as nat,
        ),
        dest_ok(
            slots,
            problem.time_blocks@[new_tb_idx].day_of_week,
            problem.time_blocks@[new_tb_idx].position,
            anchor_lesson(problem, ps, i).preferred_block_size as nat,
        ),
    ensures
        ({
            let tbs = problem.time_blocks@;
            let moved = block_moved(problem, ps, i, new_tb_idx, slots, room);
            let lid = ps[i].lesson_id;
            let od = anchor_day(problem, ps, i);
            &&& moved.len() == ps.len()
            &&& forall|j: int| 0 <= j < ps.len() && !in_block(ps, tbs, lid, od, j) ==> #[trigger] moved[j] == ps[j]
            &&& forall|j: int|
                #[trigger] in_block(ps, tbs, lid, od, j) ==> {
                    &&& moved[j].room_id == room
                    &&& moved[j].lesson_id == lid
                    &&& moved[j].teacher_id == ps[j].teacher_id
                    &&& blocks_of(block_dests(problem, ps, i, new_tb_idx, slots)).contains(moved[j].time_block_id.0)
                }
        }),
{
    let tbs = problem.time_blocks@;
    let lid = ps[i].lesson_id;
    let od = anchor_day(problem, ps, i);
    let n = anchor_lesson(problem, ps, i).preferred_block_size as nat;
    let nt = tbs[new_tb_idx];
    let moved = block_moved(problem, ps, i, new_tb_idx, slots, room);
    let dests = block_dests(problem, ps, i, new_tb_idx, slots);
    assert(in_block(ps, tbs, lid, od, i));
    lemma_block_first(ps, tbs, lid, od, ps.len() as int);
    let f = block_first(ps, tbs, lid, od, ps.len() as int);
    let low = row_pos(tbs, ps[f]);
    assert forall|j: int| #[trigger] in_block(ps, tbs, lid, od, j) implies {
        &&& moved[j].room_id == room
        &&& moved[j].lesson_id == lid
        &&& moved[j].teacher_id == ps[j].teacher_id
        &&& blocks_of(dests).contains(moved[j].time_block_id.0)
    } by {
        let k = row_pos(tbs, ps[j]) - low;
        assert(0 <= k < n);
        assert(dests[k] == dest_slot(slots, nt.day_of_week, nt.position, k)->0);
        assert(moved[j].time_block_id == dests[k]);
    }
}

/// A block move that finds a room never puts the block's teacher at a
/// destination block in which the teacher is blocked.
pub proof fn lemma_block_move_respects_teacher_blocks(
    problem: Problem,
    idx: Indexed,
    i: int,
    new_tb_idx: int,
    ps: Seq<Placement>,
    s: GreedyState,
    pinned: Seq<LessonId>,
    caps: Seq<(SchoolClassId, u8)>,
    slots: Seq<((u8, u8), TimeBlockId)>,
    order: Seq<usize>,
)
    requires
        block_room(problem, idx, i, new_tb_idx, ps, s, pinned, caps, slots, order) is Some,
    ensures
        forall|k: int|
            0 <= k < block_dests(problem, ps, i, new_tb_idx, slots).len() ==> !idx.teacher_blocked@.contains(
                (ps[anchor_first(problem, ps, i)].teacher_id.0, (#[trigger] block_dests(problem, ps, i, new_tb_idx, slots)[k]).0),
            ),
{
    let d = block_dests(problem, ps, i, new_tb_idx, slots);
    assert forall|k: int| 0 <= k < d.len() implies !idx.teacher_blocked@.contains(
        (ps[anchor_first(problem, ps, i)].teacher_id.0, (#[trigger] d[k]).0),
    ) by {
        assert(slot_free(
            idx,
            s,
            anchor_lesson(problem, ps, i).school_class_ids@,
            ps[anchor_first(problem, ps, i)].teacher_id,
            d[k].0,
            block_srcs(problem, ps, i),
        ));
    }
}

/// The room picked by walking the ordering fits the window.
proof fn lemma_order_pick_fits(
    rooms: Seq<Room>,
    order: Seq<usize>,
    idx: Indexed,
    used_room: Seq<(u128, u128)>,
    subject: SubjectId,
    src_room: RoomId,
    dests: Seq<TimeBlockId>,
    srcs: Set<u128>,
)
    ensures
        order_pick(rooms, order, idx, used_room, subject, src_room, dests, srcs) matches Some(r) ==> room_fits(
            idx,
            used_room,
            subject,
            r,
            src_room,
            dests,
            srcs,
        ),
    decreases order.len(),
{
    if order.len() > 0 {
        lemma_order_pick_fits(rooms, order.drop_first(), idx, used_room, subject, src_room, dests, srcs);
    }
}

/// A block move that finds a room moves an ungrouped, unpinned lesson to
/// lesson blocks; at every block of the destination window the teacher and
/// each member class are free unless the block is one the lesson leaves,
/// and the room suits the subject, is not blocked there, and is booked
/// there only when it is the block's own room at a block the lesson leaves.
pub proof fn lemma_block_move_lands_in_free_window(
    problem: Problem,
    idx: Indexed,
    i: int,
    new_tb_idx: int,
    ps: Seq<Placement>,
    s: GreedyState,
    pinned: Seq<LessonId>,
    caps: Seq<(SchoolClassId, u8)>,
    slots: Seq<((u8, u8), TimeBlockId)>,
    order: Seq<usize>,
)
    requires
        block_room(problem, idx, i, new_tb_idx, ps, s, pinned, caps, slots, order) is Some,
    ensures
        ({
            let r = block_room(problem, idx, i, new_tb_idx, ps, s, pinned, caps, slots, order)->0;
            let l = anchor_lesson(problem, ps, i);
            let f = anchor_first(problem, ps, i);
            let t = ps[f].teacher_id;
            let d = block_dests(problem, ps, i, new_tb_idx, slots);
            let srcs = block_srcs(problem, ps, i);
            &&& l.lesson_group_id is None && !pinned.contains(ps[i].lesson_id)
            &&& problem.time_blocks@[new_tb_idx].kind == TimeBlockKind::Lesson
            &&& suits(idx.room_subject@, r.0, l.subject_id.0)
            &&& forall|c: SchoolClassId|
                #[trigger] l.school_class_ids@.contains(c) ==> {
                    let nd = problem.time_blocks@[new_tb_idx].day_of_week;
                    let v = map_get(s.locked_room@, (c, nd, l.subject_id));
                    v is Some && !(anchor_day(problem, ps, i) == nd && v.unwrap().1 == l.preferred_block_size as u32) ==> r
                        == v.unwrap().0
                }
            &&& anchor_day(problem, ps, i) != problem.time_blocks@[new_tb_idx].day_of_week ==> forall|c: SchoolClassId|
                #[trigger] l.school_class_ids@.contains(c) ==> {
                    let nd = problem.time_blocks@[new_tb_idx].day_of_week;
                    &&& count_or_zero(map_get(s.subject_hours_by_class_day@, (c, nd, l.subject_id))) + l.preferred_block_size
                        <= first_subject_cap(problem.subjects@, l.subject_id)
                    &&& map_get(caps, c) matches Some(cap) ==> count_or_zero(map_get(s.lessons_by_class_day@, (c, nd)))
                        + l.preferred_block_size <= cap
                }
            &&& forall|k: int|
                0 <= k < d.len() ==> {
                    let b = (#[trigger] d[k]).0;
                    &&& s.used_teacher@.contains((t.0, b)) ==> srcs.contains(b)
                    &&& forall|c: SchoolClassId|
                        #[trigger] l.school_class_ids@.contains(c) && s.used_class@.contains((c.0, b)) ==> srcs.contains(b)
                    &&& !idx.room_blocked@.contains((r.0, b))
                    &&& s.used_room@.contains((r.0, b)) ==> r == ps[f].room_id && srcs.contains(b)
                }
        }),
{
    let l = anchor_lesson(problem, ps, i);
    let f = anchor_first(problem, ps, i);
    let t = ps[f].teacher_id;
    let d = block_dests(problem, ps, i, new_tb_idx, slots);
    let srcs = block_srcs(problem, ps, i);
    let cs = l.school_class_ids@;
    lemma_order_pick_fits(problem.rooms@, order, idx, s.used_room@, l.subject_id, ps[f].room_id, d, srcs);
    let r = block_room(problem, idx, i, new_tb_idx, ps, s, pinned, caps, slots, order)->0;
    assert(room_fits(idx, s.used_room@, l.subject_id, r, ps[f].room_id, d, srcs));
    let nd = problem.time_blocks@[new_tb_idx].day_of_week;
    crate::change::lemma_dest_lock_binds_every_class(
        s.locked_room@,
        cs,
        nd,
        l.subject_id,
        anchor_day(problem, ps, i) == nd,
        l.preferred_block_size as u32,
    );
    if anchor_day(problem, ps, i) != nd {
        assert forall|c: SchoolClassId| #[trigger] cs.contains(c) implies block_class_caps(
            problem,
            s,
            caps,
            l,
            c,
            nd,
            l.preferred_block_size as nat,
        ) by {
            let k = choose|k: int| 0 <= k < cs.len() && cs[k] == c;
            assert(block_class_caps(problem, s, caps, l, cs[k], nd, l.preferred_block_size as nat));
        }
    }
    assert forall|k: int| 0 <= k < d.len() implies {
        let b = (#[trigger] d[k]).0;
        &&& s.used_teacher@.contains((t.0, b)) ==> srcs.contains(b)
        &&& forall|c: SchoolClassId|
            #[trigger] cs.contains(c) && s.used_class@.contains((c.0, b)) ==> srcs.contains(b)
        &&& !idx.room_blocked@.contains((r.0, b))
        &&& s.used_room@.contains((r.0, b)) ==> r == ps[f].room_id && srcs.contains(b)
    } by {
        let b = d[k].0;
        assert(slot_free(idx, s, cs, t, b, srcs));
        assert(room_slot_ok(idx, s.used_room@, r, ps[f].room_id, b, srcs));
        assert forall|c: SchoolClassId| #[trigger] cs.contains(c) && s.used_class@.contains((c.0, b)) implies srcs.contains(b) by {
            let j = choose|j: int| 0 <= j < cs.len() && cs[j] == c;
            assert(class_busy(s.used_class@, cs, b));
        }
    }
}

} // verus!
