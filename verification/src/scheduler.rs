//! Mission scheduler: dependency graphs resolved into execution waves.
//!
//! A mission owns a set of tasks keyed by task id. At submission the tasks
//! are layered into waves: a wave holds the tasks whose dependencies all
//! lie in earlier waves. A cyclic or dangling residue is emitted as one
//! final wave rather than rejected. The host drives progress by asking for
//! ready tasks and reporting completions; the mission advances its wave
//! index when every task of the current wave is terminal.

use vstd::prelude::*;

verus! {

/// Status of a single task. A task only moves forward:
/// pending, then running, then completed or failed.
#[derive(Clone, Copy, PartialEq, Eq, Structural, Debug)]
pub enum TaskStatus {
    Pending,
    Running,
    Completed,
    Failed,
}

/// Status of a mission. Terminal states are sticky.
#[derive(Clone, Copy, PartialEq, Eq, Structural, Debug)]
pub enum MissionStatus {
    Running,
    Completed,
    Failed,
}

/// A terminal task no longer changes.
pub open spec fn task_terminal(st: TaskStatus) -> bool {
    st is Completed || st is Failed
}

/// The forward order on task statuses: a transition is legal when it
/// does not move a task backward or out of a terminal state.
pub open spec fn task_step_ok(from: TaskStatus, to: TaskStatus) -> bool {
    ||| from == to
    ||| (from is Pending && !(to is Pending))
    ||| (from is Running && task_terminal(to))
}

/// One task of a mission.
pub struct Task {
    pub id: String,
    pub agent_id: String,
    pub description: String,
    pub depends_on: Vec<String>,
    pub status: TaskStatus,
    pub result: Option<String>,
}

/// Some task in `tasks` carries the id `id`.
pub open spec fn id_in_tasks(tasks: Seq<Task>, id: Seq<char>) -> bool {
    exists|j: int| 0 <= j < tasks.len() && tasks[j].id@ == id
}

/// Task ids are pairwise distinct.
pub open spec fn unique_ids(tasks: Seq<Task>) -> bool {
    forall|j1: int, j2: int|
        0 <= j1 < j2 < tasks.len() ==> #[trigger] tasks[j1].id@ != #[trigger] tasks[j2].id@
}

/// How many tasks are completed.
pub open spec fn count_completed(tasks: Seq<Task>) -> nat
    decreases tasks.len(),
{
    if tasks.len() == 0 {
        0
    } else {
        count_completed(tasks.drop_last()) + (if tasks.last().status is Completed {
            1nat
        } else {
            0nat
        })
    }
}

pub proof fn lemma_count_completed_le_len(tasks: Seq<Task>)
    ensures
        count_completed(tasks) <= tasks.len(),
    decreases tasks.len(),
{
    if tasks.len() > 0 {
        lemma_count_completed_le_len(tasks.drop_last());
    }
}

pub proof fn lemma_count_completed_update(tasks: Seq<Task>, j: int, t: Task)
    requires
        0 <= j < tasks.len(),
    ensures
        count_completed(tasks.update(j, t)) == count_completed(tasks) + (if t.status is Completed {
            1int
        } else {
            0int
        }) - (if tasks[j].status is Completed {
            1int
        } else {
            0int
        }),
    decreases tasks.len(),
{
    let upd = tasks.update(j, t);
    if j == tasks.len() - 1 {
        assert(upd.drop_last() =~= tasks.drop_last());
        assert(upd.last() == t);
    } else {
        assert(upd.drop_last() =~= tasks.drop_last().update(j, t));
        assert(upd.last() == tasks.last());
        lemma_count_completed_update(tasks.drop_last(), j, t);
    }
}

/// Total number of ids over all waves.
pub open spec fn sum_lens(levels: Seq<Vec<String>>) -> nat
    decreases levels.len(),
{
    if levels.len() == 0 {
        0
    } else {
        sum_lens(levels.drop_last()) + levels.last()@.len()
    }
}

/// `id` occurs in one of the waves `levels[0]` .. `levels[upto - 1]`.
pub open spec fn waves_contain(levels: Seq<Vec<String>>, upto: int, id: Seq<char>) -> bool {
    exists|w: int, k: int|
        0 <= w < upto && 0 <= k < levels[w]@.len() && #[trigger] levels[w]@[k]@ == id
}

/// Every dependency of every task of wave `w` that names a task of the
/// mission lies in a wave before `w`.
pub open spec fn wave_layered(tasks: Seq<Task>, levels: Seq<Vec<String>>, w: int) -> bool {
    forall|k: int, j: int, d: int|
        #![trigger levels[w]@[k], tasks[j].depends_on@[d]]
        (0 <= k < levels[w]@.len() && 0 <= j < tasks.len() && 0 <= d
            < tasks[j].depends_on@.len() && levels[w]@[k]@ == tasks[j].id@ && id_in_tasks(
            tasks,
            tasks[j].depends_on@[d]@,
        )) ==> waves_contain(levels, w, tasks[j].depends_on@[d]@)
}

/// Every in-mission dependency of `tasks[j]` lies in the first `w` waves.
pub open spec fn deps_resolved(tasks: Seq<Task>, levels: Seq<Vec<String>>, j: int, w: int) -> bool {
    forall|d: int|
        (0 <= d < tasks[j].depends_on@.len() && id_in_tasks(
            tasks,
            #[trigger] tasks[j].depends_on@[d]@,
        )) ==> waves_contain(levels, w, tasks[j].depends_on@[d]@)
}

/// No id fills two wave slots.
pub open spec fn slots_distinct(levels: Seq<Vec<String>>) -> bool {
    forall|w1: int, k1: int, w2: int, k2: int|
        #![trigger levels[w1]@[k1], levels[w2]@[k2]]
        (0 <= w1 < levels.len() && 0 <= k1 < levels[w1]@.len() && 0 <= w2 < levels.len() && 0 <= k2
            < levels[w2]@.len() && (w1 != w2 || k1 != k2)) ==> levels[w1]@[k1]@ != levels[w2]@[k2]@
}

/// Every task's id stands in some wave.
pub open spec fn waves_cover(tasks: Seq<Task>, levels: Seq<Vec<String>>) -> bool {
    forall|j: int|
        0 <= j < tasks.len() ==> waves_contain(levels, levels.len() as int, #[trigger] tasks[j].id@)
}

/// No task waits longer than it must: one whose in-mission dependencies
/// all lie before wave `w` stands in a wave no later than `w`.
pub open spec fn waves_maximal(tasks: Seq<Task>, levels: Seq<Vec<String>>) -> bool {
    forall|j: int, w: int|
        (0 <= j < tasks.len() && 0 <= w < levels.len() && #[trigger] deps_resolved(
            tasks,
            levels,
            j,
            w,
        )) ==> waves_contain(levels, w + 1, tasks[j].id@)
}

/// `id` stands in wave `w`.
pub open spec fn wave_has(levels: Seq<Vec<String>>, w: int, id: Seq<char>) -> bool {
    exists|k: int| 0 <= k < levels[w]@.len() && #[trigger] levels[w]@[k]@ == id
}

/// The task carrying `id` still depends on something inside wave `w`.
pub open spec fn stuck_entry(
    tasks: Seq<Task>,
    levels: Seq<Vec<String>>,
    w: int,
    id: Seq<char>,
) -> bool {
    exists|j: int, d: int|
        #![trigger tasks[j].depends_on@[d]]
        0 <= j < tasks.len() && tasks[j].id@ == id && 0 <= d < tasks[j].depends_on@.len()
            && wave_has(levels, w, tasks[j].depends_on@[d]@)
}

/// Every task of wave `w` has an in-mission dependency inside wave `w`
/// itself: the mark of a cyclic or dangling residue.
pub open spec fn wave_stuck(tasks: Seq<Task>, levels: Seq<Vec<String>>, w: int) -> bool {
    forall|k: int|
        0 <= k < levels[w]@.len() ==> stuck_entry(tasks, levels, w, #[trigger] levels[w]@[k]@)
}

/// Everything the wave decomposition guarantees: the wave lengths sum to
/// the task count; every wave before the last is layered; every wave
/// entry names a task; every task stands in some wave, and in exactly one
/// slot; no task waits past the wave its dependencies allow; and the last
/// wave is itself layered unless it is a cyclic or dangling residue, in
/// which case each of its tasks depends on another task inside it.
#[verifier::opaque]
pub open spec fn levels_wf(tasks: Seq<Task>, levels: Seq<Vec<String>>) -> bool {
    &&& sum_lens(levels) == tasks.len()
    &&& layered_upto(tasks, levels, levels.len() - 1)
    &&& waves_name_tasks(tasks, levels)
    &&& waves_cover(tasks, levels)
    &&& slots_distinct(levels)
    &&& waves_maximal(tasks, levels)
    &&& (levels.len() > 0 ==> (wave_layered(tasks, levels, levels.len() - 1) || wave_stuck(
        tasks,
        levels,
        levels.len() - 1,
    )))
}

/// The indices in `remaining` are pairwise distinct.
pub open spec fn distinct_indices(remaining: Seq<usize>) -> bool {
    forall|k1: int, k2: int|
        0 <= k1 < k2 < remaining.len() ==> #[trigger] remaining[k1] != #[trigger] remaining[k2]
}

/// No emitted id is the id of a task still in the remainder.
pub open spec fn emitted_disjoint(
    tasks: Seq<Task>,
    remaining: Seq<usize>,
    levels: Seq<Vec<String>>,
) -> bool {
    forall|w: int, k: int, k2: int|
        #![trigger levels[w]@[k], remaining[k2]]
        (0 <= w < levels.len() && 0 <= k < levels[w]@.len() && 0 <= k2 < remaining.len())
            ==> levels[w]@[k]@ != tasks[remaining[k2] as int].id@
}

/// Does any task indexed by `remaining` carry the id `id`?
fn id_in_remaining(tasks: &Vec<Task>, remaining: &Vec<usize>, id: &String) -> (r: bool)
    requires
        forall|k: int| 0 <= k < remaining@.len() ==> #[trigger] remaining@[k] < tasks@.len(),
    ensures
        r == exists|k: int|
            0 <= k < remaining@.len() && tasks@[#[trigger] remaining@[k] as int].id@ == id@,
{
    let mut k: usize = 0;
    while k < remaining.len()
        invariant
            0 <= k <= remaining@.len(),
            forall|k2: int|
                0 <= k2 < k ==> tasks@[#[trigger] remaining@[k2] as int].id@ != id@,
        decreases remaining@.len() - k,
    {
        if tasks[remaining[k]].id == *id {
            return true;
        }
        k = k + 1;
    }
    false
}

/// Do all dependencies of `tasks[j]` avoid the tasks indexed by `remaining`?

/// No dependency of `tasks[j]` names a task indexed by `remaining`.
pub open spec fn dep_free(tasks: Seq<Task>, remaining: Seq<usize>, j: int) -> bool {
    forall|d: int, k: int|
        #![trigger tasks[j].depends_on@[d], remaining[k]]
        (0 <= d < tasks[j].depends_on@.len() && 0 <= k < remaining.len()) ==> tasks[remaining[
            k
        ] as int].id@ != tasks[j].depends_on@[d]@
}

/// Do all dependencies of `tasks[j]` avoid the tasks indexed by `remaining`?
fn deps_ready(tasks: &Vec<Task>, remaining: &Vec<usize>, j: usize) -> (r: bool)
    requires
        j < tasks@.len(),
        forall|k: int| 0 <= k < remaining@.len() ==> #[trigger] remaining@[k] < tasks@.len(),
    ensures
        r == dep_free(tasks@, remaining@, j as int),
{
    let deps = &tasks[j].depends_on;
    let mut d: usize = 0;
    while d < deps.len()
        invariant
            0 <= d <= deps@.len(),
            deps@ == tasks@[j as int].depends_on@,
            forall|d2: int, k: int|
                #![trigger deps@[d2], remaining@[k]]
                (0 <= d2 < d && 0 <= k < remaining@.len()) ==> tasks@[remaining@[k] as int].id@
                    != deps@[d2]@,
        decreases deps@.len() - d,
    {
        if id_in_remaining(tasks, remaining, &deps[d]) {
            return false;
        }
        d = d + 1;
    }
    true
}

proof fn lemma_waves_contain_push(
    levels: Seq<Vec<String>>,
    wv: Vec<String>,
    upto: int,
    id: Seq<char>,
)
    requires
        waves_contain(levels, upto, id),
        0 <= upto <= levels.len(),
    ensures
        waves_contain(levels.push(wv), upto, id),
{
    let (w, k) = choose|w: int, k: int|
        0 <= w < upto && 0 <= k < levels[w]@.len() && #[trigger] levels[w]@[k]@ == id;
    assert(levels.push(wv)[w]@[k]@ == id);
}

proof fn lemma_waves_contain_mono(levels: Seq<Vec<String>>, u1: int, u2: int, id: Seq<char>)
    requires
        waves_contain(levels, u1, id),
        u1 <= u2,
    ensures
        waves_contain(levels, u2, id),
{
    let (w, k) = choose|w: int, k: int|
        0 <= w < u1 && 0 <= k < levels[w]@.len() && #[trigger] levels[w]@[k]@ == id;
    assert(0 <= w < u2 && 0 <= k < levels[w]@.len() && levels[w]@[k]@ == id);
}

proof fn lemma_wave_layered_push(
    tasks: Seq<Task>,
    levels: Seq<Vec<String>>,
    wv: Vec<String>,
    w: int,
)
    requires
        0 <= w < levels.len(),
        wave_layered(tasks, levels, w),
    ensures
        wave_layered(tasks, levels.push(wv), w),
{
    let lv2 = levels.push(wv);
    assert forall|k: int, j: int, d: int|
        #![trigger lv2[w]@[k], tasks[j].depends_on@[d]]
        (0 <= k < lv2[w]@.len() && 0 <= j < tasks.len() && 0 <= d < tasks[j].depends_on@.len()
            && lv2[w]@[k]@ == tasks[j].id@ && id_in_tasks(tasks, tasks[j].depends_on@[d]@)) implies
        waves_contain(lv2, w, tasks[j].depends_on@[d]@) by {
        assert(levels[w]@[k] == lv2[w]@[k]);
        assert(levels[w]@[k]@ == tasks[j].id@);
        assert(waves_contain(levels, w, tasks[j].depends_on@[d]@));
        lemma_waves_contain_push(levels, wv, w, tasks[j].depends_on@[d]@);
    }
}

/// The readiness flags match `dep_free` for each indexed task.
pub open spec fn flags_ok(tasks: Seq<Task>, remaining: Seq<usize>, flags: Seq<bool>) -> bool {
    &&& flags.len() == remaining.len()
    &&& forall|k: int|
        0 <= k < flags.len() ==> #[trigger] flags[k] == dep_free(
            tasks,
            remaining,
            remaining[k] as int,
        )
}

/// `id` is the id of some ready task of the remainder.
pub open spec fn ready_entry(
    tasks: Seq<Task>,
    remaining: Seq<usize>,
    flags: Seq<bool>,
    id: Seq<char>,
) -> bool {
    exists|k5: int|
        0 <= k5 < remaining.len() && id == tasks[#[trigger] remaining[k5] as int].id@ && flags[k5]
}

/// Every entry of `wv` is the id of a ready task of the remainder.
pub open spec fn wave_of_ready(
    tasks: Seq<Task>,
    remaining: Seq<usize>,
    flags: Seq<bool>,
    wv: Seq<String>,
) -> bool {
    forall|k4: int| 0 <= k4 < wv.len() ==> ready_entry(tasks, remaining, flags, #[trigger] wv[k4]@)
}

/// Every entry of `keep` is a blocked index of the remainder.
pub open spec fn keep_of_blocked(remaining: Seq<usize>, flags: Seq<bool>, keep: Seq<usize>) -> bool {
    forall|k4: int|
        0 <= k4 < keep.len() ==> exists|k5: int|
            0 <= k5 < remaining.len() && #[trigger] keep[k4] == remaining[k5] && !flags[k5]
}

/// Each of the first `upto` remainder entries went to the wave (if ready)
/// or was kept (if blocked).
pub open spec fn covered_upto(
    tasks: Seq<Task>,
    remaining: Seq<usize>,
    flags: Seq<bool>,
    wv: Seq<String>,
    keep: Seq<usize>,
    upto: int,
) -> bool {
    forall|k5: int|
        0 <= k5 < upto ==> (if flags[k5] {
            exists|k4: int|
                0 <= k4 < wv.len() && #[trigger] wv[k4]@ == tasks[remaining[k5] as int].id@
        } else {
            exists|k4: int| 0 <= k4 < keep.len() && #[trigger] keep[k4] == remaining[k5]
        })
}

/// Every task is either still in the remainder or already placed in a wave.
pub open spec fn placed(tasks: Seq<Task>, remaining: Seq<usize>, levels: Seq<Vec<String>>) -> bool {
    forall|j: int|
        0 <= j < tasks.len() ==> (exists|k: int|
            0 <= k < remaining.len() && #[trigger] remaining[k] == j) || waves_contain(
            levels,
            levels.len() as int,
            #[trigger] tasks[j].id@,
        )
}

/// Every id standing in a wave names a task.
pub open spec fn waves_name_tasks(tasks: Seq<Task>, levels: Seq<Vec<String>>) -> bool {
    forall|w: int, k: int|
        (0 <= w < levels.len() && 0 <= k < levels[w]@.len()) ==> id_in_tasks(
            tasks,
            #[trigger] levels[w]@[k]@,
        )
}

/// The first `upto` waves are layered.
pub open spec fn layered_upto(tasks: Seq<Task>, levels: Seq<Vec<String>>, upto: int) -> bool {
    forall|w: int| 0 <= w < upto ==> wave_layered(tasks, levels, w)
}

proof fn lemma_waves_contain_pop(
    levels: Seq<Vec<String>>,
    wv: Vec<String>,
    upto: int,
    id: Seq<char>,
)
    requires
        waves_contain(levels.push(wv), upto, id),
        upto <= levels.len(),
    ensures
        waves_contain(levels, upto, id),
{
    let lv2 = levels.push(wv);
    let (w, k) = choose|w: int, k: int|
        0 <= w < upto && 0 <= k < lv2[w]@.len() && #[trigger] lv2[w]@[k]@ == id;
    assert(levels[w]@[k]@ == id);
}

proof fn lemma_deps_resolved_pop(
    tasks: Seq<Task>,
    levels: Seq<Vec<String>>,
    wv: Vec<String>,
    j: int,
    w: int,
)
    requires
        0 <= j < tasks.len(),
        w <= levels.len(),
        deps_resolved(tasks, levels.push(wv), j, w),
    ensures
        deps_resolved(tasks, levels, j, w),
{
    assert forall|d: int|
        (0 <= d < tasks[j].depends_on@.len() && id_in_tasks(
            tasks,
            #[trigger] tasks[j].depends_on@[d]@,
        )) implies waves_contain(levels, w, tasks[j].depends_on@[d]@) by {
        lemma_waves_contain_pop(levels, wv, w, tasks[j].depends_on@[d]@);
    }
}

/// A task whose in-mission dependencies were all emitted has none of them
/// among the remainder.
proof fn lemma_dep_free_from_resolved(
    tasks: Seq<Task>,
    remaining: Seq<usize>,
    levels: Seq<Vec<String>>,
    j: int,
)
    requires
        0 <= j < tasks.len(),
        forall|k: int| 0 <= k < remaining.len() ==> #[trigger] remaining[k] < tasks.len(),
        deps_resolved(tasks, levels, j, levels.len() as int),
        emitted_disjoint(tasks, remaining, levels),
    ensures
        dep_free(tasks, remaining, j),
{
    assert forall|d: int, k: int|
        #![trigger tasks[j].depends_on@[d], remaining[k]]
        (0 <= d < tasks[j].depends_on@.len() && 0 <= k < remaining.len()) implies tasks[remaining[
        k] as int].id@ != tasks[j].depends_on@[d]@ by {
        if tasks[remaining[k] as int].id@ == tasks[j].depends_on@[d]@ {
            assert(id_in_tasks(tasks, tasks[j].depends_on@[d]@)) by {
                assert(tasks[remaining[k] as int].id@ == tasks[j].depends_on@[d]@);
            }
            assert(waves_contain(levels, levels.len() as int, tasks[j].depends_on@[d]@));
            let (w7, k7) = choose|w7: int, k7: int|
                0 <= w7 < levels.len() && 0 <= k7 < levels[w7]@.len() && #[trigger] levels[
                    w7]@[k7]@ == tasks[j].depends_on@[d]@;
            assert(levels[w7]@[k7]@ != tasks[remaining[k] as int].id@);
        }
    }
}

/// Pushing a wave of fresh remainder ids keeps the slots distinct.
proof fn lemma_slots_distinct_push(
    tasks: Seq<Task>,
    levels: Seq<Vec<String>>,
    wv: Vec<String>,
    remaining: Seq<usize>,
)
    requires
        slots_distinct(levels),
        emitted_disjoint(tasks, remaining, levels),
        forall|k1: int, k2: int| 0 <= k1 < k2 < wv@.len() ==> #[trigger] wv@[k1]@ != #[trigger] wv@[k2]@,
        forall|k4: int|
            0 <= k4 < wv@.len() ==> id_of_remaining(tasks, remaining, #[trigger] wv@[k4]@),
    ensures
        slots_distinct(levels.push(wv)),
{
    let lv2 = levels.push(wv);
    assert forall|w1: int, k1: int, w2: int, k2: int|
        #![trigger lv2[w1]@[k1], lv2[w2]@[k2]]
        (0 <= w1 < lv2.len() && 0 <= k1 < lv2[w1]@.len() && 0 <= w2 < lv2.len() && 0 <= k2 < lv2[
            w2]@.len() && (w1 != w2 || k1 != k2)) implies lv2[w1]@[k1]@ != lv2[w2]@[k2]@ by {
        if w1 < levels.len() && w2 < levels.len() {
            assert(lv2[w1]@[k1] == levels[w1]@[k1]);
            assert(lv2[w2]@[k2] == levels[w2]@[k2]);
            assert(levels[w1]@[k1]@ != levels[w2]@[k2]@);
        } else if w1 < levels.len() && w2 == levels.len() {
            assert(id_of_remaining(tasks, remaining, wv@[k2]@));
            let k5 = choose|k5: int|
                0 <= k5 < remaining.len() && wv@[k2]@ == tasks[#[trigger] remaining[
                    k5] as int].id@;
            assert(levels[w1]@[k1]@ != tasks[remaining[k5] as int].id@);
        } else if w1 == levels.len() && w2 < levels.len() {
            assert(id_of_remaining(tasks, remaining, wv@[k1]@));
            let k5 = choose|k5: int|
                0 <= k5 < remaining.len() && wv@[k1]@ == tasks[#[trigger] remaining[
                    k5] as int].id@;
            assert(levels[w2]@[k2]@ != tasks[remaining[k5] as int].id@);
        } else {
            if k1 < k2 {
                assert(wv@[k1]@ != wv@[k2]@);
            } else {
                assert(wv@[k2]@ != wv@[k1]@);
            }
        }
    }
}

/// After a ready wave leaves, the emitted ids still avoid the kept
/// remainder.
proof fn lemma_emitted_disjoint_push_ready(
    tasks: Seq<Task>,
    levels: Seq<Vec<String>>,
    wv: Vec<String>,
    remaining: Seq<usize>,
    keep: Seq<usize>,
    flags: Seq<bool>,
)
    requires
        unique_ids(tasks),
        distinct_indices(remaining),
        forall|k: int| 0 <= k < remaining.len() ==> #[trigger] remaining[k] < tasks.len(),
        flags.len() == remaining.len(),
        emitted_disjoint(tasks, remaining, levels),
        wave_of_ready(tasks, remaining, flags, wv@),
        keep_of_blocked(remaining, flags, keep),
    ensures
        emitted_disjoint(tasks, keep, levels.push(wv)),
{
    let lv2 = levels.push(wv);
    assert forall|w: int, k: int, k2: int|
        #![trigger lv2[w]@[k], keep[k2]]
        (0 <= w < lv2.len() && 0 <= k < lv2[w]@.len() && 0 <= k2 < keep.len()) implies lv2[
        w]@[k]@ != tasks[keep[k2] as int].id@ by {
        let k5k = choose|k5: int|
            0 <= k5 < remaining.len() && #[trigger] keep[k2] == remaining[k5] && !flags[k5];
        if w < levels.len() {
            assert(lv2[w]@[k] == levels[w]@[k]);
            assert(levels[w]@[k]@ != tasks[remaining[k5k] as int].id@);
        } else {
            assert(lv2[w] == wv);
            assert(ready_entry(tasks, remaining, flags, wv@[k]@));
            let k5w = choose|k5: int|
                0 <= k5 < remaining.len() && wv@[k]@ == tasks[#[trigger] remaining[
                    k5] as int].id@ && flags[k5];
            assert(k5w != k5k);
            assert(remaining[k5w] != remaining[k5k]);
            let jw = remaining[k5w] as int;
            let jk = remaining[k5k] as int;
            if jw < jk {
                assert(tasks[jw].id@ != tasks[jk].id@);
            } else {
                assert(tasks[jk].id@ != tasks[jw].id@);
            }
        }
    }
}

/// Maximality survives emitting a ready wave: a task whose dependencies
/// were all emitted either already stood in a wave or is ready now and
/// stands in the new one.
proof fn lemma_maximal_push_ready(
    tasks: Seq<Task>,
    levels: Seq<Vec<String>>,
    wv: Vec<String>,
    remaining: Seq<usize>,
    flags: Seq<bool>,
)
    requires
        unique_ids(tasks),
        forall|k: int| 0 <= k < remaining.len() ==> #[trigger] remaining[k] < tasks.len(),
        flags_ok(tasks, remaining, flags),
        emitted_disjoint(tasks, remaining, levels),
        placed(tasks, remaining, levels),
        waves_maximal(tasks, levels),
        forall|k5: int|
            (0 <= k5 < remaining.len() && #[trigger] flags[k5]) ==> (exists|k4: int|
                0 <= k4 < wv@.len() && #[trigger] wv@[k4]@ == tasks[remaining[k5] as int].id@),
    ensures
        waves_maximal(tasks, levels.push(wv)),
{
    let lv2 = levels.push(wv);
    assert forall|j: int, w: int|
        (0 <= j < tasks.len() && 0 <= w < lv2.len() && #[trigger] deps_resolved(
            tasks,
            lv2,
            j,
            w,
        )) implies waves_contain(lv2, w + 1, tasks[j].id@) by {
        lemma_deps_resolved_pop(tasks, levels, wv, j, w);
        if w < levels.len() {
            assert(waves_contain(levels, w + 1, tasks[j].id@));
            lemma_waves_contain_push(levels, wv, w + 1, tasks[j].id@);
        } else {
            if exists|k: int| 0 <= k < remaining.len() && #[trigger] remaining[k] == j {
                let k = choose|k: int| 0 <= k < remaining.len() && #[trigger] remaining[k] == j;
                lemma_dep_free_from_resolved(tasks, remaining, levels, j);
                assert(flags[k]);
                let k4 = choose|k4: int|
                    0 <= k4 < wv@.len() && #[trigger] wv@[k4]@ == tasks[remaining[k] as int].id@;
                assert(lv2[levels.len() as int]@[k4]@ == tasks[j].id@);
            } else {
                assert(waves_contain(levels, levels.len() as int, tasks[j].id@));
                lemma_waves_contain_push(levels, wv, levels.len() as int, tasks[j].id@);
                lemma_waves_contain_mono(lv2, levels.len() as int, w + 1, tasks[j].id@);
            }
        }
    }
}

/// Maximality survives flushing the residue: nothing left was ready, so a
/// task with emitted dependencies already stood in a wave.
proof fn lemma_maximal_push_fallback(
    tasks: Seq<Task>,
    levels: Seq<Vec<String>>,
    wv: Vec<String>,
    remaining: Seq<usize>,
    flags: Seq<bool>,
)
    requires
        forall|k: int| 0 <= k < remaining.len() ==> #[trigger] remaining[k] < tasks.len(),
        flags_ok(tasks, remaining, flags),
        forall|k: int| 0 <= k < flags.len() ==> !(#[trigger] flags[k]),
        emitted_disjoint(tasks, remaining, levels),
        placed(tasks, remaining, levels),
        waves_maximal(tasks, levels),
    ensures
        waves_maximal(tasks, levels.push(wv)),
{
    let lv2 = levels.push(wv);
    assert forall|j: int, w: int|
        (0 <= j < tasks.len() && 0 <= w < lv2.len() && #[trigger] deps_resolved(
            tasks,
            lv2,
            j,
            w,
        )) implies waves_contain(lv2, w + 1, tasks[j].id@) by {
        lemma_deps_resolved_pop(tasks, levels, wv, j, w);
        if w < levels.len() {
            assert(waves_contain(levels, w + 1, tasks[j].id@));
            lemma_waves_contain_push(levels, wv, w + 1, tasks[j].id@);
        } else {
            if exists|k: int| 0 <= k < remaining.len() && #[trigger] remaining[k] == j {
                let k = choose|k: int| 0 <= k < remaining.len() && #[trigger] remaining[k] == j;
                lemma_dep_free_from_resolved(tasks, remaining, levels, j);
                assert(flags[k]);
                assert(false);
            } else {
                assert(waves_contain(levels, levels.len() as int, tasks[j].id@));
                lemma_waves_contain_push(levels, wv, levels.len() as int, tasks[j].id@);
                lemma_waves_contain_mono(lv2, levels.len() as int, w + 1, tasks[j].id@);
            }
        }
    }
}

/// The flushed residue is stuck: every task in it still depends on
/// another task inside it.
proof fn lemma_stuck_fallback(
    tasks: Seq<Task>,
    levels: Seq<Vec<String>>,
    wv: Vec<String>,
    remaining: Seq<usize>,
    flags: Seq<bool>,
)
    requires
        forall|k: int| 0 <= k < remaining.len() ==> #[trigger] remaining[k] < tasks.len(),
        flags_ok(tasks, remaining, flags),
        forall|k: int| 0 <= k < flags.len() ==> !(#[trigger] flags[k]),
        wv@.len() == remaining.len(),
        forall|k: int|
            0 <= k < remaining.len() ==> #[trigger] wv@[k]@ == tasks[remaining[k] as int].id@,
    ensures
        wave_stuck(tasks, levels.push(wv), levels.len() as int),
{
    let lv2 = levels.push(wv);
    let w = levels.len() as int;
    assert forall|k: int| 0 <= k < lv2[w]@.len() implies stuck_entry(
        tasks,
        lv2,
        w,
        #[trigger] lv2[w]@[k]@,
    ) by {
        let jt = remaining[k] as int;
        assert(!flags[k]);
        assert(!dep_free(tasks, remaining, jt));
        let (d, k2) = choose|d: int, k2: int|
            #![trigger tasks[jt].depends_on@[d], remaining[k2]]
            0 <= d < tasks[jt].depends_on@.len() && 0 <= k2 < remaining.len() && tasks[remaining[
                k2] as int].id@ == tasks[jt].depends_on@[d]@;
        assert(lv2[w]@[k2]@ == tasks[remaining[k2] as int].id@);
        assert(wave_has(lv2, w, tasks[jt].depends_on@[d]@));
        assert(tasks[jt].id@ == lv2[w]@[k]@);
        assert(stuck_entry(tasks, lv2, w, lv2[w]@[k]@));
    }
}

/// A wave whose entries are ready tasks of the remainder is layered: each
/// A wave whose entries are ready tasks of the remainder is layered: each
/// in-mission dependency of such a task was already emitted.
proof fn lemma_new_wave_layered(
    tasks: Seq<Task>,
    levels: Seq<Vec<String>>,
    wv: Vec<String>,
    remaining: Seq<usize>,
    flags: Seq<bool>,
)
    requires
        unique_ids(tasks),
        forall|k: int| 0 <= k < remaining.len() ==> #[trigger] remaining[k] < tasks.len(),
        flags_ok(tasks, remaining, flags),
        wave_of_ready(tasks, remaining, flags, wv@),
        placed(tasks, remaining, levels),
    ensures
        wave_layered(tasks, levels.push(wv), levels.len() as int),
{
    let lv2 = levels.push(wv);
    let w = levels.len() as int;
    assert forall|k: int, j: int, d: int|
        #![trigger lv2[w]@[k], tasks[j].depends_on@[d]]
        (0 <= k < lv2[w]@.len() && 0 <= j < tasks.len() && 0 <= d < tasks[j].depends_on@.len()
            && lv2[w]@[k]@ == tasks[j].id@ && id_in_tasks(tasks, tasks[j].depends_on@[d]@)) implies
        waves_contain(lv2, w, tasks[j].depends_on@[d]@) by {
        let dep = tasks[j].depends_on@[d]@;
        assert(lv2[w] == wv);
        assert(ready_entry(tasks, remaining, flags, wv@[k]@));
        let k5 = choose|k5: int|
            0 <= k5 < remaining.len() && wv@[k]@ == tasks[#[trigger] remaining[k5] as int].id@
                && flags[k5];
        let jr = remaining[k5] as int;
        assert(tasks[jr].id@ == tasks[j].id@);
        if j < jr {
            assert(tasks[j].id@ != tasks[jr].id@);
        } else if jr < j {
            assert(tasks[jr].id@ != tasks[j].id@);
        }
        assert(j == jr);
        assert(dep_free(tasks, remaining, jr));
        let jd = choose|jd: int| 0 <= jd < tasks.len() && #[trigger] tasks[jd].id@ == dep;
        assert forall|k8: int| 0 <= k8 < remaining.len() implies #[trigger] remaining[k8]
            != jd by {
            if remaining[k8] == jd {
                assert(tasks[remaining[k8] as int].id@ != tasks[jr].depends_on@[d]@);
            }
        }
        assert(waves_contain(levels, levels.len() as int, tasks[jd].id@));
        lemma_waves_contain_push(levels, wv, levels.len() as int, dep);
    }
}

/// The ids of all tasks indexed by `remaining`, in order.
fn collect_all_ids(tasks: &Vec<Task>, remaining: &Vec<usize>) -> (wave: Vec<String>)
    requires
        forall|k: int| 0 <= k < remaining@.len() ==> #[trigger] remaining@[k] < tasks@.len(),
    ensures
        wave@.len() == remaining@.len(),
        forall|k: int|
            0 <= k < remaining@.len() ==> #[trigger] wave@[k]@ == tasks@[remaining@[k] as int].id@,
{
    let mut wave: Vec<String> = Vec::new();
    let mut k: usize = 0;
    while k < remaining.len()
        invariant
            0 <= k <= remaining@.len(),
            wave@.len() == k,
            forall|k4: int|
                0 <= k4 < k ==> #[trigger] wave@[k4]@ == tasks@[remaining@[k4] as int].id@,
        decreases remaining@.len() - k,
    {
        wave.push(tasks[remaining[k]].id.clone());
        k = k + 1;
    }
    wave
}

/// Readiness of each task indexed by `remaining`, against the whole of
/// `remaining`.
fn compute_flags(tasks: &Vec<Task>, remaining: &Vec<usize>) -> (flags: Vec<bool>)
    requires
        forall|k: int| 0 <= k < remaining@.len() ==> #[trigger] remaining@[k] < tasks@.len(),
    ensures
        flags_ok(tasks@, remaining@, flags@),
{
    let mut flags: Vec<bool> = Vec::new();
    let mut k: usize = 0;
    while k < remaining.len()
        invariant
            0 <= k <= remaining@.len(),
            flags@.len() == k,
            forall|k2: int|
                0 <= k2 < k ==> #[trigger] flags@[k2] == dep_free(
                    tasks@,
                    remaining@,
                    remaining@[k2] as int,
                ),
        decreases remaining@.len() - k,
    {
        let f = deps_ready(tasks, &remaining, remaining[k]);
        flags.push(f);
        k = k + 1;
    }
    flags
}

/// `id` is the id of a ready task among the first `upto` remainder slots.
pub open spec fn wave_entry_sourced(
    tasks: Seq<Task>,
    remaining: Seq<usize>,
    flags: Seq<bool>,
    upto: int,
    id: Seq<char>,
) -> bool {
    exists|k5: int|
        0 <= k5 < upto && id == tasks[#[trigger] remaining[k5] as int].id@ && flags[k5]
}

/// `id` is the id of some task indexed by the remainder.
pub open spec fn id_of_remaining(tasks: Seq<Task>, remaining: Seq<usize>, id: Seq<char>) -> bool {
    exists|k5: int| 0 <= k5 < remaining.len() && id == tasks[#[trigger] remaining[k5] as int].id@
}

/// `v` is a blocked index among the first `upto` remainder slots.
pub open spec fn keep_entry_sourced(
    remaining: Seq<usize>,
    flags: Seq<bool>,
    upto: int,
    v: usize,
) -> bool {
    exists|k5: int| 0 <= k5 < upto && v == #[trigger] remaining[k5] && !flags[k5]
}

/// The running state of a partition pass: after `k3` remainder entries,
/// the wave holds exactly the ids of the ready ones (each once, pairwise
/// distinct) and `keep` exactly the blocked indices (pairwise distinct).
pub open spec fn partition_inv(
    tasks: Seq<Task>,
    remaining: Seq<usize>,
    flags: Seq<bool>,
    wv: Seq<String>,
    keep: Seq<usize>,
    k3: int,
) -> bool {
    &&& wv.len() + keep.len() == k3
    &&& (forall|k: int| 0 <= k < keep.len() ==> #[trigger] keep[k] < tasks.len())
    &&& wave_of_ready(tasks, remaining, flags, wv)
    &&& keep_of_blocked(remaining, flags, keep)
    &&& covered_upto(tasks, remaining, flags, wv, keep, k3)
    &&& (forall|k4: int|
        0 <= k4 < wv.len() ==> wave_entry_sourced(tasks, remaining, flags, k3, #[trigger] wv[k4]@))
    &&& (forall|k4: int|
        0 <= k4 < keep.len() ==> keep_entry_sourced(remaining, flags, k3, #[trigger] keep[k4]))
    &&& (forall|a: int, b: int| 0 <= a < b < wv.len() ==> #[trigger] wv[a]@ != #[trigger] wv[b]@)
    &&& distinct_indices(keep)
}

/// One partition step over a ready entry: its id joins the wave.
#[verifier::rlimit(100)]
#[verifier::spinoff_prover]
proof fn lemma_partition_step_ready(
    tasks: Seq<Task>,
    remaining: Seq<usize>,
    flags: Seq<bool>,
    wv0: Seq<String>,
    keep: Seq<usize>,
    wv1: Seq<String>,
    k3: int,
)
    requires
        unique_ids(tasks),
        distinct_indices(remaining),
        flags_ok(tasks, remaining, flags),
        forall|k: int| 0 <= k < remaining.len() ==> #[trigger] remaining[k] < tasks.len(),
        0 <= k3 < remaining.len(),
        partition_inv(tasks, remaining, flags, wv0, keep, k3),
        flags[k3],
        wv1.len() == wv0.len() + 1,
        wv1.drop_last() == wv0,
        wv1.last()@ == tasks[remaining[k3] as int].id@,
    ensures
        partition_inv(tasks, remaining, flags, wv1, keep, k3 + 1),
{
    assert forall|k4: int| 0 <= k4 < wv1.len() implies wave_entry_sourced(
        tasks,
        remaining,
        flags,
        k3 + 1,
        #[trigger] wv1[k4]@,
    ) by {
        if k4 < wv0.len() {
            assert(wv1[k4] == wv0[k4]);
            assert(wave_entry_sourced(tasks, remaining, flags, k3, wv0[k4]@));
            let k5 = choose|k5: int|
                0 <= k5 < k3 && wv0[k4]@ == tasks[#[trigger] remaining[k5] as int].id@ && flags[
                    k5];
            assert(wv1[k4]@ == tasks[remaining[k5] as int].id@ && flags[k5]);
        } else {
            assert(wv1[k4]@ == tasks[remaining[k3] as int].id@ && flags[k3]);
        }
    }
    assert forall|k4: int| 0 <= k4 < keep.len() implies keep_entry_sourced(
        remaining,
        flags,
        k3 + 1,
        #[trigger] keep[k4],
    ) by {
        assert(keep_entry_sourced(remaining, flags, k3, keep[k4]));
        let k5 = choose|k5: int| 0 <= k5 < k3 && keep[k4] == #[trigger] remaining[k5] && !flags[k5];
        assert(keep[k4] == remaining[k5] && !flags[k5]);
    }
    assert forall|a: int, b: int| 0 <= a < b < wv1.len() implies #[trigger] wv1[a]@
        != #[trigger] wv1[b]@ by {
        if b < wv0.len() {
            assert(wv1[a] == wv0[a]);
            assert(wv1[b] == wv0[b]);
            assert(wv0[a]@ != wv0[b]@);
        } else {
            assert(wv1[a] == wv0[a]);
            assert(wave_entry_sourced(tasks, remaining, flags, k3, wv0[a]@));
            let k5 = choose|k5: int|
                0 <= k5 < k3 && wv0[a]@ == tasks[#[trigger] remaining[k5] as int].id@ && flags[
                    k5];
            assert(remaining[k5] != remaining[k3]);
            let ja = remaining[k5] as int;
            let jb = remaining[k3] as int;
            if ja < jb {
                assert(tasks[ja].id@ != tasks[jb].id@);
            } else {
                assert(tasks[jb].id@ != tasks[ja].id@);
            }
            assert(wv1[b]@ == tasks[jb].id@);
        }
    }
    assert forall|k4: int| 0 <= k4 < wv1.len() implies ready_entry(
        tasks,
        remaining,
        flags,
        #[trigger] wv1[k4]@,
    ) by {
        if k4 < wv0.len() {
            assert(wv1[k4] == wv0[k4]);
            assert(ready_entry(tasks, remaining, flags, wv0[k4]@));
        } else {
            assert(wv1[k4]@ == tasks[remaining[k3] as int].id@);
            assert(ready_entry(tasks, remaining, flags, wv1[k4]@));
        }
    }
    assert forall|k5: int| 0 <= k5 < k3 + 1 implies (if flags[k5] {
        exists|k4: int|
            0 <= k4 < wv1.len() && #[trigger] wv1[k4]@ == tasks[remaining[k5] as int].id@
    } else {
        exists|k4: int| 0 <= k4 < keep.len() && #[trigger] keep[k4] == remaining[k5]
    }) by {
        if k5 < k3 {
            if flags[k5] {
                let k4 = choose|k4: int|
                    0 <= k4 < wv0.len() && #[trigger] wv0[k4]@ == tasks[remaining[
                        k5] as int].id@;
                assert(wv1[k4]@ == tasks[remaining[k5] as int].id@);
            }
        } else {
            assert(wv1[wv1.len() - 1]@ == tasks[remaining[k5] as int].id@);
        }
    }
    assert(wave_of_ready(tasks, remaining, flags, wv1));
    assert(keep_of_blocked(remaining, flags, keep));
    assert(covered_upto(tasks, remaining, flags, wv1, keep, k3 + 1));
}

/// One partition step over a blocked entry: its index is kept.
#[verifier::rlimit(100)]
#[verifier::spinoff_prover]
proof fn lemma_partition_step_blocked(
    tasks: Seq<Task>,
    remaining: Seq<usize>,
    flags: Seq<bool>,
    wv: Seq<String>,
    keep0: Seq<usize>,
    keep1: Seq<usize>,
    k3: int,
)
    requires
        unique_ids(tasks),
        distinct_indices(remaining),
        flags_ok(tasks, remaining, flags),
        forall|k: int| 0 <= k < remaining.len() ==> #[trigger] remaining[k] < tasks.len(),
        0 <= k3 < remaining.len(),
        partition_inv(tasks, remaining, flags, wv, keep0, k3),
        !flags[k3],
        keep1 == keep0.push(remaining[k3]),
    ensures
        partition_inv(tasks, remaining, flags, wv, keep1, k3 + 1),
{
    assert(keep1.drop_last() =~= keep0);
    assert forall|k4: int| 0 <= k4 < wv.len() implies wave_entry_sourced(
        tasks,
        remaining,
        flags,
        k3 + 1,
        #[trigger] wv[k4]@,
    ) by {
        assert(wave_entry_sourced(tasks, remaining, flags, k3, wv[k4]@));
        let k5 = choose|k5: int|
            0 <= k5 < k3 && wv[k4]@ == tasks[#[trigger] remaining[k5] as int].id@ && flags[k5];
        assert(wv[k4]@ == tasks[remaining[k5] as int].id@ && flags[k5]);
    }
    assert forall|k4: int| 0 <= k4 < keep1.len() implies keep_entry_sourced(
        remaining,
        flags,
        k3 + 1,
        #[trigger] keep1[k4],
    ) by {
        if k4 < keep0.len() {
            assert(keep1[k4] == keep0[k4]);
            assert(keep_entry_sourced(remaining, flags, k3, keep0[k4]));
            let k5 = choose|k5: int|
                0 <= k5 < k3 && keep0[k4] == #[trigger] remaining[k5] && !flags[k5];
            assert(keep1[k4] == remaining[k5] && !flags[k5]);
        } else {
            assert(keep1[k4] == remaining[k3] && !flags[k3]);
        }
    }
    assert forall|k4: int| 0 <= k4 < keep1.len() implies exists|k5: int|
        0 <= k5 < remaining.len() && #[trigger] keep1[k4] == remaining[k5] && !flags[k5] by {
        assert(keep_entry_sourced(remaining, flags, k3 + 1, keep1[k4]));
        let k5 = choose|k5: int|
            0 <= k5 < k3 + 1 && keep1[k4] == #[trigger] remaining[k5] && !flags[k5];
        assert(keep1[k4] == remaining[k5] && !flags[k5]);
    }
    assert forall|a: int, b: int| 0 <= a < b < keep1.len() implies #[trigger] keep1[a]
        != #[trigger] keep1[b] by {
        if b < keep0.len() {
            assert(keep1[a] == keep0[a]);
            assert(keep1[b] == keep0[b]);
            assert(keep0[a] != keep0[b]);
        } else {
            assert(keep1[a] == keep0[a]);
            assert(keep_entry_sourced(remaining, flags, k3, keep0[a]));
            let k5 = choose|k5: int|
                0 <= k5 < k3 && keep0[a] == #[trigger] remaining[k5] && !flags[k5];
            assert(remaining[k5] != remaining[k3]);
            assert(keep1[b] == remaining[k3]);
        }
    }
    assert forall|k5: int| 0 <= k5 < k3 + 1 implies (if flags[k5] {
        exists|k4: int|
            0 <= k4 < wv.len() && #[trigger] wv[k4]@ == tasks[remaining[k5] as int].id@
    } else {
        exists|k4: int| 0 <= k4 < keep1.len() && #[trigger] keep1[k4] == remaining[k5]
    }) by {
        if k5 < k3 {
            if !flags[k5] {
                let k4 = choose|k4: int|
                    0 <= k4 < keep0.len() && #[trigger] keep0[k4] == remaining[k5];
                assert(keep1[k4] == remaining[k5]);
            }
        } else {
            assert(keep1[keep1.len() - 1] == remaining[k5]);
        }
    }
    assert(wave_of_ready(tasks, remaining, flags, wv));
    assert(keep_of_blocked(remaining, flags, keep1));
    assert(covered_upto(tasks, remaining, flags, wv, keep1, k3 + 1));
}

/// Split the remainder into the ids of the ready tasks (the next wave)
/// and the indices of the tasks still blocked.
fn partition_ready(tasks: &Vec<Task>, remaining: &Vec<usize>, flags: &Vec<bool>) -> (r: (
    Vec<String>,
    Vec<usize>,
))
    requires
        flags_ok(tasks@, remaining@, flags@),
        unique_ids(tasks@),
        distinct_indices(remaining@),
        forall|k: int| 0 <= k < remaining@.len() ==> #[trigger] remaining@[k] < tasks@.len(),
    ensures
        r.0@.len() + r.1@.len() == remaining@.len(),
        forall|k: int| 0 <= k < r.1@.len() ==> #[trigger] r.1@[k] < tasks@.len(),
        wave_of_ready(tasks@, remaining@, flags@, r.0@),
        keep_of_blocked(remaining@, flags@, r.1@),
        covered_upto(tasks@, remaining@, flags@, r.0@, r.1@, remaining@.len() as int),
        forall|a: int, b: int|
            0 <= a < b < r.0@.len() ==> #[trigger] r.0@[a]@ != #[trigger] r.0@[b]@,
        distinct_indices(r.1@),
{
    let mut wave: Vec<String> = Vec::new();
    let mut keep: Vec<usize> = Vec::new();
    let mut k3: usize = 0;
    while k3 < remaining.len()
        invariant
            0 <= k3 <= remaining@.len(),
            partition_inv(tasks@, remaining@, flags@, wave@, keep@, k3 as int),
        decreases remaining@.len() - k3,
    {
        let ghost old_wave = wave@;
        let ghost old_keep = keep@;
        if flags[k3] {
            wave.push(tasks[remaining[k3]].id.clone());
            proof {
                assert(wave@.drop_last() =~= old_wave);
                lemma_partition_step_ready(
                    tasks@,
                    remaining@,
                    flags@,
                    old_wave,
                    keep@,
                    wave@,
                    k3 as int,
                );
            }
        } else {
            keep.push(remaining[k3]);
            proof {
                lemma_partition_step_blocked(
                    tasks@,
                    remaining@,
                    flags@,
                    wave@,
                    old_keep,
                    keep@,
                    k3 as int,
                );
            }
        }
        k3 = k3 + 1;
    }
    (wave, keep)
}

/// Layer `tasks` into execution waves.
///
/// Every id of `tasks` lands in exactly one wave slot, so the wave
/// lengths sum to the task count even when the dependency graph has a
/// cycle or a dangling edge; in that case the unresolvable residue is
/// emitted as one final wave. Every wave except possibly the last only
/// holds tasks whose in-mission dependencies lie in earlier waves.
pub fn build_levels(tasks: &Vec<Task>) -> (levels: Vec<Vec<String>>)
    requires
        unique_ids(tasks@),
    ensures
        levels_wf(tasks@, levels@),
{
    let mut levels: Vec<Vec<String>> = Vec::new();
    let mut remaining: Vec<usize> = Vec::new();
    let mut j: usize = 0;
    while j < tasks.len()
        invariant
            0 <= j <= tasks@.len(),
            remaining@.len() == j,
            forall|k: int| 0 <= k < remaining@.len() ==> #[trigger] remaining@[k] == k,
        decreases tasks@.len() - j,
    {
        remaining.push(j);
        j = j + 1;
    }
    proof {
        assert forall|j2: int| 0 <= j2 < tasks@.len() implies ((exists|k: int|
            0 <= k < remaining@.len() && #[trigger] remaining@[k] == j2) || waves_contain(
            levels@,
            levels@.len() as int,
            tasks@[j2].id@,
        )) by {
            assert(remaining@[j2] == j2);
        }
        assert(placed(tasks@, remaining@, levels@));
    }
    while remaining.len() > 0
        invariant
            forall|k: int| 0 <= k < remaining@.len() ==> #[trigger] remaining@[k] < tasks@.len(),
            sum_lens(levels@) + remaining@.len() == tasks@.len(),
            placed(tasks@, remaining@, levels@),
            layered_upto(tasks@, levels@, levels@.len() - 1),
            remaining@.len() > 0 ==> layered_upto(tasks@, levels@, levels@.len() as int),
            waves_name_tasks(tasks@, levels@),
            distinct_indices(remaining@),
            emitted_disjoint(tasks@, remaining@, levels@),
            slots_distinct(levels@),
            waves_maximal(tasks@, levels@),
            levels@.len() > 0 ==> (wave_layered(tasks@, levels@, levels@.len() - 1) || wave_stuck(
                tasks@,
                levels@,
                levels@.len() - 1,
            )),
        decreases remaining@.len(),
    {
        let flags = compute_flags(tasks, &remaining);
        let mut any_ready = false;
        let mut k2: usize = 0;
        while k2 < flags.len()
            invariant
                0 <= k2 <= flags@.len(),
                any_ready == exists|k3: int| 0 <= k3 < k2 && #[trigger] flags@[k3],
            decreases flags@.len() - k2,
        {
            if flags[k2] {
                any_ready = true;
            }
            k2 = k2 + 1;
        }
        if !any_ready {
            // cyclic or dangling residue: emit everything left as one wave
            let wave = collect_all_ids(tasks, &remaining);
            let ghost old_levels = levels@;
            proof {
                assert forall|k: int| 0 <= k < flags@.len() implies !(#[trigger] flags@[k]) by {}
                assert forall|k4: int| 0 <= k4 < wave@.len() implies id_of_remaining(
                    tasks@,
                    remaining@,
                    #[trigger] wave@[k4]@,
                ) by {
                    assert(wave@[k4]@ == tasks@[remaining@[k4] as int].id@);
                }
                assert forall|k1: int, k2: int|
                    0 <= k1 < k2 < wave@.len() implies #[trigger] wave@[k1]@ != #[trigger] wave@[
                    k2]@ by {
                    assert(remaining@[k1] != remaining@[k2]);
                    let j1 = remaining@[k1] as int;
                    let j2 = remaining@[k2] as int;
                    if j1 < j2 {
                        assert(tasks@[j1].id@ != tasks@[j2].id@);
                    } else {
                        assert(tasks@[j2].id@ != tasks@[j1].id@);
                    }
                }
                lemma_slots_distinct_push(tasks@, levels@, wave, remaining@);
                lemma_maximal_push_fallback(tasks@, levels@, wave, remaining@, flags@);
                lemma_stuck_fallback(tasks@, levels@, wave, remaining@, flags@);
            }
            levels.push(wave);
            proof {
                assert(levels@.drop_last() =~= old_levels);
                assert(sum_lens(levels@) == sum_lens(old_levels) + levels@.last()@.len());
                assert forall|j2: int| 0 <= j2 < tasks@.len() implies waves_contain(
                    levels@,
                    levels@.len() as int,
                    #[trigger] tasks@[j2].id@,
                ) by {
                    if exists|k4: int|
                        0 <= k4 < remaining@.len() && #[trigger] remaining@[k4] == j2 {
                        let k4 = choose|k4: int|
                            0 <= k4 < remaining@.len() && #[trigger] remaining@[k4] == j2;
                        assert(levels@[levels@.len() - 1]@[k4]@ == tasks@[j2].id@);
                    } else {
                        lemma_waves_contain_push(
                            old_levels,
                            levels@.last(),
                            old_levels.len() as int,
                            tasks@[j2].id@,
                        );
                        lemma_waves_contain_mono(
                            levels@,
                            old_levels.len() as int,
                            levels@.len() as int,
                            tasks@[j2].id@,
                        );
                    }
                }
                assert forall|w: int| 0 <= w < levels@.len() - 1 implies wave_layered(
                    tasks@,
                    levels@,
                    w,
                ) by {
                    lemma_wave_layered_push(tasks@, old_levels, levels@.last(), w);
                }
                assert forall|w: int, k6: int|
                    (0 <= w < levels@.len() && 0 <= k6 < levels@[w]@.len()) implies id_in_tasks(
                    tasks@,
                    #[trigger] levels@[w]@[k6]@,
                ) by {
                    if w < levels@.len() - 1 {
                        assert(levels@[w]@[k6]@ == old_levels[w]@[k6]@);
                    } else {
                        assert(levels@[w]@[k6]@ == tasks@[remaining@[k6] as int].id@);
                        let jt = remaining@[k6] as int;
                        assert(tasks@[jt].id@ == levels@[w]@[k6]@);
                    }
                }
            }
            remaining = Vec::new();
        } else {
            let pr = partition_ready(tasks, &remaining, &flags);
            let wave = pr.0;
            let keep = pr.1;
            let ghost old_levels = levels@;
            let ghost old_remaining = remaining@;
            let ghost wv = wave@;
            let ghost gkeep = keep@;
            proof {
                lemma_new_wave_layered(tasks@, old_levels, wave, remaining@, flags@);
                assert forall|k4: int| 0 <= k4 < wave@.len() implies id_of_remaining(
                    tasks@,
                    remaining@,
                    #[trigger] wave@[k4]@,
                ) by {
                    assert(ready_entry(tasks@, remaining@, flags@, wave@[k4]@));
                    let k5 = choose|k5: int|
                        0 <= k5 < remaining@.len() && wave@[k4]@ == tasks@[#[trigger] remaining@[
                            k5] as int].id@ && flags@[k5];
                    assert(wave@[k4]@ == tasks@[remaining@[k5] as int].id@);
                }
                lemma_slots_distinct_push(tasks@, levels@, wave, remaining@);
                lemma_emitted_disjoint_push_ready(
                    tasks@,
                    levels@,
                    wave,
                    remaining@,
                    keep@,
                    flags@,
                );
                assert forall|k5: int|
                    (0 <= k5 < remaining@.len() && #[trigger] flags@[k5]) implies (exists|k4: int|
                    0 <= k4 < wave@.len() && #[trigger] wave@[k4]@ == tasks@[remaining@[
                        k5] as int].id@) by {
                    assert(covered_upto(
                        tasks@,
                        remaining@,
                        flags@,
                        wave@,
                        keep@,
                        remaining@.len() as int,
                    ));
                }
                lemma_maximal_push_ready(tasks@, levels@, wave, remaining@, flags@);
            }
            levels.push(wave);
            proof {
                assert(levels@.drop_last() =~= old_levels);
                assert(levels@.last()@ == wv);
                assert(sum_lens(levels@) == sum_lens(old_levels) + wv.len());
                // the ready wave is non-empty, so the remainder shrinks
                let kr = choose|k3: int| 0 <= k3 < flags@.len() && #[trigger] flags@[k3];
                assert(covered_upto(tasks@, old_remaining, flags@, wv, gkeep, old_remaining.len() as int));
                assert(wv.len() > 0);
                assert forall|j2: int| 0 <= j2 < tasks@.len() implies ((exists|k4: int|
                    0 <= k4 < gkeep.len() && #[trigger] gkeep[k4] == j2) || waves_contain(
                    levels@,
                    levels@.len() as int,
                    #[trigger] tasks@[j2].id@,
                )) by {
                    if exists|k4: int|
                        0 <= k4 < old_remaining.len() && #[trigger] old_remaining[k4] == j2 {
                        let k4 = choose|k4: int|
                            0 <= k4 < old_remaining.len() && #[trigger] old_remaining[k4] == j2;
                        if flags@[k4] {
                            let k5 = choose|k5: int|
                                0 <= k5 < wv.len() && #[trigger] wv[k5]@ == tasks@[old_remaining[
                                    k4
                                ] as int].id@;
                            assert(levels@[levels@.len() - 1]@[k5]@ == tasks@[j2].id@);
                        }
                    } else {
                        lemma_waves_contain_push(
                            old_levels,
                            levels@.last(),
                            old_levels.len() as int,
                            tasks@[j2].id@,
                        );
                        lemma_waves_contain_mono(
                            levels@,
                            old_levels.len() as int,
                            levels@.len() as int,
                            tasks@[j2].id@,
                        );
                    }
                }
                assert(placed(tasks@, gkeep, levels@));
                assert forall|w: int| 0 <= w < levels@.len() implies wave_layered(
                    tasks@,
                    levels@,
                    w,
                ) by {
                    if w < levels@.len() - 1 {
                        lemma_wave_layered_push(tasks@, old_levels, levels@.last(), w);
                    }
                }
                assert forall|w: int, k6: int|
                    (0 <= w < levels@.len() && 0 <= k6 < levels@[w]@.len()) implies id_in_tasks(
                    tasks@,
                    #[trigger] levels@[w]@[k6]@,
                ) by {
                    if w < levels@.len() - 1 {
                        assert(levels@[w]@[k6]@ == old_levels[w]@[k6]@);
                    } else {
                        assert(levels@[w]@[k6]@ == wv[k6]@);
                        assert(ready_entry(tasks@, old_remaining, flags@, wv[k6]@));
                        let k5 = choose|k5: int|
                            0 <= k5 < old_remaining.len() && wv[k6]@ == tasks@[#[trigger] old_remaining[
                                k5
                            ] as int].id@ && flags@[k5];
                        let jt = old_remaining[k5] as int;
                        assert(tasks@[jt].id@ == levels@[w]@[k6]@);
                    }
                }
            }
            remaining = keep;
        }
    }
    proof {
        assert forall|j2: int| 0 <= j2 < tasks@.len() implies waves_contain(
            levels@,
            levels@.len() as int,
            #[trigger] tasks@[j2].id@,
        ) by {
            assert(!(exists|k: int| 0 <= k < remaining@.len() && #[trigger] remaining@[k] == j2));
        }
        assert(waves_cover(tasks@, levels@));
        reveal(levels_wf);
        assert(levels_wf(tasks@, levels@));
    }
    levels
}


/// Copy a vector of strings, value for value.
fn clone_string_vec(v: &Vec<String>) -> (r: Vec<String>)
    ensures
        r@ == v@,
{
    let mut r: Vec<String> = Vec::new();
    let mut i: usize = 0;
    while i < v.len()
        invariant
            0 <= i <= v@.len(),
            r@ == v@.take(i as int),
        decreases v@.len() - i,
    {
        r.push(v[i].clone());
        proof {
            assert(v@.take(i + 1) =~= v@.take(i as int).push(v@[i as int]));
        }
        i = i + 1;
    }
    proof {
        assert(v@.take(v@.len() as int) =~= v@);
    }
    r
}

/// The two tasks agree field by field (dependency lists compared by
/// contents).
pub open spec fn task_like(a: Task, b: Task) -> bool {
    &&& b.id == a.id
    &&& b.agent_id == a.agent_id
    &&& b.description == a.description
    &&& b.depends_on@ == a.depends_on@
    &&& b.status == a.status
    &&& b.result == a.result
}

/// Copy a task, value for value.
fn clone_task(t: &Task) -> (r: Task)
    ensures
        task_like(*t, r),
{
    let result = match &t.result {
        Some(s) => Some(s.clone()),
        None => None,
    };
    Task {
        id: t.id.clone(),
        agent_id: t.agent_id.clone(),
        description: t.description.clone(),
        depends_on: clone_string_vec(&t.depends_on),
        status: t.status,
        result,
    }
}

/// A mission: tasks keyed by unique id, layered into waves at submission.
pub struct Mission {
    pub id: String,
    pub status: MissionStatus,
    pub tasks: Vec<Task>,
    pub completed_tasks: usize,
    pub total_tasks: usize,
    pub levels: Vec<Vec<String>>,
    pub current_level: usize,
    pub created_at: String,
    pub completed_at: Option<String>,
}

/// Well-formedness of a mission, preserved by every operation: the counter
/// equals the number of completed tasks (so it never exceeds the total),
/// the wave index never passes the wave count, task ids stay unique, and a
/// completed mission stands at the end of its waves.
pub open spec fn mission_wf(m: Mission) -> bool {
    &&& m.total_tasks == m.tasks@.len()
    &&& m.completed_tasks == count_completed(m.tasks@)
    &&& m.current_level <= m.levels@.len()
    &&& unique_ids(m.tasks@)
    &&& (m.status is Completed ==> m.current_level == m.levels@.len())
}

/// The bounds that hold of every well-formed mission: the completed count
/// never exceeds the total, and the wave index never passes the last wave.
pub proof fn lemma_mission_bounds(m: Mission)
    requires
        mission_wf(m),
    ensures
        m.completed_tasks <= m.total_tasks,
        m.current_level <= m.levels@.len(),
{
    lemma_count_completed_le_len(m.tasks@);
}

/// Every task of the wave that the mission knows is terminal; an id that
/// names no task counts as terminal.
pub open spec fn wave_terminal(tasks: Seq<Task>, wave: Seq<String>) -> bool {
    forall|k: int, j: int|
        #![trigger wave[k], tasks[j].status]
        (0 <= k < wave.len() && 0 <= j < tasks.len() && tasks[j].id@ == wave[k]@)
            ==> task_terminal(tasks[j].status)
}

/// The index of the task carrying `id` (meaningful when some task does).
pub open spec fn task_idx(tasks: Seq<Task>, id: Seq<char>) -> int {
    choose|j: int| 0 <= j < tasks.len() && tasks[j].id@ == id
}

/// Some non-terminal task carries `id`.
pub open spec fn can_complete(tasks: Seq<Task>, id: Seq<char>) -> bool {
    exists|j: int| 0 <= j < tasks.len() && #[trigger] tasks[j].id@ == id && !task_terminal(tasks[j].status)
}

/// Some pending task carries `id`.
pub open spec fn can_start(tasks: Seq<Task>, id: Seq<char>) -> bool {
    exists|j: int| 0 <= j < tasks.len() && #[trigger] tasks[j].id@ == id && tasks[j].status is Pending
}

/// The new tasks carry the old ids, descriptions and dependencies, and no
/// task moved backward.
pub open spec fn tasks_frame(a: Seq<Task>, b: Seq<Task>) -> bool {
    &&& a.len() == b.len()
    &&& forall|j: int|
        0 <= j < a.len() ==> (#[trigger] b[j].id == a[j].id && b[j].agent_id == a[j].agent_id
            && b[j].description == a[j].description && b[j].depends_on@ == a[j].depends_on@
            && task_step_ok(a[j].status, b[j].status))
}

/// A mission status only changes away from `Running`; terminal states are
/// sticky.
pub open spec fn mission_step_ok(from: MissionStatus, to: MissionStatus) -> bool {
    from == to || from is Running
}

/// What completing `task_id` does to a mission. When a non-terminal task
/// carries the id, that task becomes completed with the given result, the
/// counter rises by one, the wave index advances exactly when the current
/// wave has become terminal, and the mission completes exactly when the
/// index thereby passes the last wave. Otherwise nothing changes.
pub open spec fn complete_post(
    m0: Mission,
    m1: Mission,
    task_id: Seq<char>,
    result: Option<String>,
) -> bool {
    &&& m1.id == m0.id
    &&& m1.created_at == m0.created_at
    &&& m1.levels == m0.levels
    &&& m1.total_tasks == m0.total_tasks
    &&& tasks_frame(m0.tasks@, m1.tasks@)
    &&& mission_step_ok(m0.status, m1.status)
    &&& m0.current_level <= m1.current_level <= m1.levels@.len()
    &&& if can_complete(m0.tasks@, task_id) {
        let j = task_idx(m0.tasks@, task_id);
        &&& m1.tasks@[j].status is Completed
        &&& m1.tasks@[j].result == result
        &&& (forall|j2: int|
            0 <= j2 < m1.tasks@.len() && j2 != j ==> #[trigger] m1.tasks@[j2] == m0.tasks@[j2])
        &&& m1.completed_tasks == m0.completed_tasks + 1
        &&& m1.current_level == (if m0.current_level < m0.levels@.len() && wave_terminal(
            m1.tasks@,
            m0.levels@[m0.current_level as int]@,
        ) {
            m0.current_level + 1
        } else {
            m0.current_level as int
        })
        &&& m1.status == (if m0.status is Running && m1.current_level == m1.levels@.len()
            && m1.current_level != m0.current_level {
            MissionStatus::Completed
        } else {
            m0.status
        })
        &&& (m1.status is Completed && m0.status is Running ==> m1.completed_at is Some)
        &&& (!(m1.status is Completed && m0.status is Running) ==> m1.completed_at
            == m0.completed_at)
    } else {
        m1 == m0
    }
}

/// What failing `task_id` does to a running mission: the named task (when
/// non-terminal) becomes failed carrying the error text, and the mission
/// fails at once, whatever the wave progress. A terminal mission is left
/// alone.
pub open spec fn fail_post(m0: Mission, m1: Mission, task_id: Seq<char>, error: String) -> bool {
    &&& m1.id == m0.id
    &&& m1.created_at == m0.created_at
    &&& m1.levels == m0.levels
    &&& m1.total_tasks == m0.total_tasks
    &&& tasks_frame(m0.tasks@, m1.tasks@)
    &&& mission_step_ok(m0.status, m1.status)
    &&& m1.current_level == m0.current_level
    &&& m1.completed_tasks == m0.completed_tasks
    &&& if m0.status is Running {
        &&& m1.status is Failed
        &&& m1.completed_at is Some
        &&& if can_complete(m0.tasks@, task_id) {
            let j = task_idx(m0.tasks@, task_id);
            &&& m1.tasks@[j].status is Failed
            &&& m1.tasks@[j].result == Some(error)
            &&& (forall|j2: int|
                0 <= j2 < m1.tasks@.len() && j2 != j ==> #[trigger] m1.tasks@[j2]
                    == m0.tasks@[j2])
        } else {
            m1.tasks@ == m0.tasks@
        }
    } else {
        m1 == m0
    }
}

/// Find the task carrying `id`.
fn find_task(tasks: &Vec<Task>, id: &String) -> (r: Option<usize>)
    ensures
        match r {
            Some(j) => 0 <= j < tasks@.len() && tasks@[j as int].id@ == id@,
            None => !id_in_tasks(tasks@, id@),
        },
{
    let mut j: usize = 0;
    while j < tasks.len()
        invariant
            0 <= j <= tasks@.len(),
            forall|j2: int| 0 <= j2 < j ==> #[trigger] tasks@[j2].id@ != id@,
        decreases tasks@.len() - j,
    {
        if tasks[j].id == *id {
            return Some(j);
        }
        j = j + 1;
    }
    None
}

/// Is every task of `wave` that the mission knows terminal?
fn wave_all_terminal(tasks: &Vec<Task>, wave: &Vec<String>) -> (r: bool)
    ensures
        r == wave_terminal(tasks@, wave@),
{
    let mut k: usize = 0;
    while k < wave.len()
        invariant
            0 <= k <= wave@.len(),
            forall|k2: int, j: int|
                #![trigger wave@[k2], tasks@[j].status]
                (0 <= k2 < k && 0 <= j < tasks@.len() && tasks@[j].id@ == wave@[k2]@)
                    ==> task_terminal(tasks@[j].status),
        decreases wave@.len() - k,
    {
        let mut j: usize = 0;
        while j < tasks.len()
            invariant
                0 <= j <= tasks@.len(),
                0 <= k < wave@.len(),
                forall|j2: int|
                    (0 <= j2 < j && tasks@[j2].id@ == wave@[k as int]@) ==> task_terminal(
                        #[trigger] tasks@[j2].status,
                    ),
            decreases tasks@.len() - j,
        {
            if tasks[j].id == wave[k] {
                let st = tasks[j].status;
                if !(st == TaskStatus::Completed || st == TaskStatus::Failed) {
                    return false;
                }
            }
            j = j + 1;
        }
        k = k + 1;
    }
    true
}

/// The pending tasks of `wave`, in wave order.
pub open spec fn ready_list(tasks: Seq<Task>, wave: Seq<String>) -> Seq<Task>
    decreases wave.len(),
{
    if wave.len() == 0 {
        Seq::<Task>::empty()
    } else {
        let rest = ready_list(tasks, wave.drop_last());
        let id = wave.last()@;
        if id_in_tasks(tasks, id) && tasks[task_idx(tasks, id)].status is Pending {
            rest.push(tasks[task_idx(tasks, id)])
        } else {
            rest
        }
    }
}

impl Mission {
    /// Mark `task_id` completed and advance the wave index when its wave
    /// has become terminal; the mission completes when the index passes
    /// the last wave. `now` stamps the completion time.
    pub fn complete_task(&mut self, task_id: &String, result: Option<String>, now: String)
        requires
            mission_wf(*old(self)),
        ensures
            mission_wf(*final(self)),
            complete_post(*old(self), *final(self), task_id@, result),
    {
        let found = find_task(&self.tasks, task_id);
        match found {
            None => {
                proof {
                    assert(!can_complete(self.tasks@, task_id@));
                }
            },
            Some(j) => {
                let st = self.tasks[j].status;
                if st == TaskStatus::Completed || st == TaskStatus::Failed {
                    proof {
                        assert forall|j2: int|
                            0 <= j2 < self.tasks@.len() && #[trigger] self.tasks@[j2].id@
                                == task_id@ implies task_terminal(self.tasks@[j2].status) by {
                            if j2 < j as int {
                                assert(self.tasks@[j2].id@ != self.tasks@[j as int].id@);
                            } else if (j as int) < j2 {
                                assert(self.tasks@[j as int].id@ != self.tasks@[j2].id@);
                            }
                        }
                        assert(!can_complete(self.tasks@, task_id@));
                    }
                } else {
                    let ghost m0 = *self;
                    let upd = Task {
                        id: self.tasks[j].id.clone(),
                        agent_id: self.tasks[j].agent_id.clone(),
                        description: self.tasks[j].description.clone(),
                        depends_on: clone_string_vec(&self.tasks[j].depends_on),
                        status: TaskStatus::Completed,
                        result,
                    };
                    proof {
                        lemma_count_completed_update(self.tasks@, j as int, upd);
                        lemma_count_completed_le_len(self.tasks@.update(j as int, upd));
                        assert(can_complete(self.tasks@, task_id@));
                        let jc = task_idx(m0.tasks@, task_id@);
                        if jc < j as int {
                            assert(m0.tasks@[jc].id@ != m0.tasks@[j as int].id@);
                        } else if (j as int) < jc {
                            assert(m0.tasks@[j as int].id@ != m0.tasks@[jc].id@);
                        }
                        assert(jc == j as int);
                    }
                    self.tasks.set(j, upd);
                    self.completed_tasks = self.completed_tasks + 1;
                    if self.current_level < self.levels.len() {
                        let term = wave_all_terminal(&self.tasks, &self.levels[self.current_level]);
                        if term {
                            self.current_level = self.current_level + 1;
                            if self.current_level >= self.levels.len() && self.status
                                == MissionStatus::Running {
                                self.status = MissionStatus::Completed;
                                self.completed_at = Some(now);
                            }
                        }
                    }
                }
            },
        }
    }

    /// Mark `task_id` failed and fail the whole running mission at once,
    /// whatever the wave progress. A terminal mission is left alone.
    pub fn fail_task(&mut self, task_id: &String, error: String, now: String)
        requires
            mission_wf(*old(self)),
        ensures
            mission_wf(*final(self)),
            fail_post(*old(self), *final(self), task_id@, error),
    {
        if !(self.status == MissionStatus::Running) {
            return ;
        }
        let ghost m0 = *self;
        let found = find_task(&self.tasks, task_id);
        match found {
            None => {
                proof {
                    assert(!can_complete(self.tasks@, task_id@));
                }
            },
            Some(j) => {
                let st = self.tasks[j].status;
                if st == TaskStatus::Completed || st == TaskStatus::Failed {
                    proof {
                        assert forall|j2: int|
                            0 <= j2 < self.tasks@.len() && #[trigger] self.tasks@[j2].id@
                                == task_id@ implies task_terminal(self.tasks@[j2].status) by {
                            if j2 < j as int {
                                assert(self.tasks@[j2].id@ != self.tasks@[j as int].id@);
                            } else if (j as int) < j2 {
                                assert(self.tasks@[j as int].id@ != self.tasks@[j2].id@);
                            }
                        }
                        assert(!can_complete(self.tasks@, task_id@));
                    }
                } else {
                    let upd = Task {
                        id: self.tasks[j].id.clone(),
                        agent_id: self.tasks[j].agent_id.clone(),
                        description: self.tasks[j].description.clone(),
                        depends_on: clone_string_vec(&self.tasks[j].depends_on),
                        status: TaskStatus::Failed,
                        result: Some(error),
                    };
                    proof {
                        lemma_count_completed_update(self.tasks@, j as int, upd);
                        assert(can_complete(self.tasks@, task_id@));
                        let jc = task_idx(m0.tasks@, task_id@);
                        if jc < j as int {
                            assert(m0.tasks@[jc].id@ != m0.tasks@[j as int].id@);
                        } else if (j as int) < jc {
                            assert(m0.tasks@[j as int].id@ != m0.tasks@[jc].id@);
                        }
                        assert(jc == j as int);
                    }
                    self.tasks.set(j, upd);
                }
            },
        }
        self.status = MissionStatus::Failed;
        self.completed_at = Some(now);
    }

    /// Move a pending task to running. Nothing else changes.
    pub fn start_task(&mut self, task_id: &String) -> (r: bool)
        requires
            mission_wf(*old(self)),
        ensures
            mission_wf(*final(self)),
            r == can_start(old(self).tasks@, task_id@),
            final(self).id == old(self).id,
            final(self).status == old(self).status,
            final(self).levels == old(self).levels,
            final(self).total_tasks == old(self).total_tasks,
            final(self).completed_tasks == old(self).completed_tasks,
            final(self).current_level == old(self).current_level,
            final(self).created_at == old(self).created_at,
            final(self).completed_at == old(self).completed_at,
            tasks_frame(old(self).tasks@, final(self).tasks@),
            r ==> ({
                let j = task_idx(old(self).tasks@, task_id@);
                &&& final(self).tasks@[j].status is Running
                &&& final(self).tasks@[j].result == old(self).tasks@[j].result
                &&& (forall|j2: int|
                    0 <= j2 < final(self).tasks@.len() && j2 != j ==> #[trigger] final(self).tasks@[j2] == old(self).tasks@[j2])
            }),
            !r ==> *final(self) == *old(self),
    {
        let ghost m0 = *self;
        let found = find_task(&self.tasks, task_id);
        match found {
            None => {
                proof {
                    assert(!can_start(self.tasks@, task_id@));
                }
                false
            },
            Some(j) => {
                if self.tasks[j].status == TaskStatus::Pending {
                    let upd = Task {
                        id: self.tasks[j].id.clone(),
                        agent_id: self.tasks[j].agent_id.clone(),
                        description: self.tasks[j].description.clone(),
                        depends_on: clone_string_vec(&self.tasks[j].depends_on),
                        status: TaskStatus::Running,
                        result: match &self.tasks[j].result {
                            Some(s) => Some(s.clone()),
                            None => None,
                        },
                    };
                    proof {
                        lemma_count_completed_update(self.tasks@, j as int, upd);
                        assert(can_start(self.tasks@, task_id@));
                        let jc = task_idx(m0.tasks@, task_id@);
                        if jc < j as int {
                            assert(m0.tasks@[jc].id@ != m0.tasks@[j as int].id@);
                        } else if (j as int) < jc {
                            assert(m0.tasks@[j as int].id@ != m0.tasks@[jc].id@);
                        }
                        assert(jc == j as int);
                    }
                    self.tasks.set(j, upd);
                    true
                } else {
                    proof {
                        assert forall|j2: int|
                            0 <= j2 < self.tasks@.len() && #[trigger] self.tasks@[j2].id@
                                == task_id@ implies !(self.tasks@[j2].status is Pending) by {
                            if j2 < j as int {
                                assert(self.tasks@[j2].id@ != self.tasks@[j as int].id@);
                            } else if (j as int) < j2 {
                                assert(self.tasks@[j as int].id@ != self.tasks@[j2].id@);
                            }
                        }
                        assert(!can_start(self.tasks@, task_id@));
                    }
                    false
                }
            },
        }
    }

    /// Move a running mission straight to failed; terminal missions are
    /// left alone.
    pub fn cancel(&mut self, now: String) -> (r: bool)
        requires
            mission_wf(*old(self)),
        ensures
            mission_wf(*final(self)),
            r == (old(self).status is Running),
            mission_step_ok(old(self).status, final(self).status),
            r ==> (final(self).status is Failed && final(self).completed_at == Some(now) && final(self).tasks == old(self).tasks && final(self).id == old(self).id && final(self).levels
                == old(self).levels && final(self).completed_tasks == old(self).completed_tasks
                && final(self).total_tasks == old(self).total_tasks && final(self).current_level
                == old(self).current_level && final(self).created_at == old(self).created_at),
            !r ==> *final(self) == *old(self),
    {
        if self.status == MissionStatus::Running {
            self.status = MissionStatus::Failed;
            self.completed_at = Some(now);
            true
        } else {
            false
        }
    }

    /// The pending tasks of the current wave, in wave order; empty unless
    /// the mission is running and has a current wave.
    pub fn get_ready_tasks(&self) -> (r: Vec<Task>)
        requires
            mission_wf(*self),
        ensures
            (self.status is Running && self.current_level < self.levels@.len()) ==> ({
                let rl = ready_list(self.tasks@, self.levels@[self.current_level as int]@);
                &&& r@.len() == rl.len()
                &&& forall|i: int| 0 <= i < rl.len() ==> task_like(rl[i], #[trigger] r@[i])
            }),
            !(self.status is Running && self.current_level < self.levels@.len()) ==> r@
                == Seq::<Task>::empty(),
    {
        let mut r: Vec<Task> = Vec::new();
        if !(self.status == MissionStatus::Running) || self.current_level >= self.levels.len() {
            return r;
        }
        let wave = &self.levels[self.current_level];
        let mut k: usize = 0;
        while k < wave.len()
            invariant
                0 <= k <= wave@.len(),
                mission_wf(*self),
                self.current_level < self.levels@.len(),
                wave == &self.levels[self.current_level as int],
                r@.len() == ready_list(self.tasks@, wave@.take(k as int)).len(),
                forall|i: int|
                    0 <= i < r@.len() ==> task_like(
                        ready_list(self.tasks@, wave@.take(k as int))[i],
                        #[trigger] r@[i],
                    ),
            decreases wave@.len() - k,
        {
            proof {
                assert(wave@.take(k + 1).drop_last() =~= wave@.take(k as int));
                assert(wave@.take(k + 1).last() == wave@[k as int]);
            }
            let found = find_task(&self.tasks, &wave[k]);
            match found {
                None => {
                    proof {
                        assert(!id_in_tasks(self.tasks@, wave@[k as int]@));
                    }
                },
                Some(j) => {
                    proof {
                        let jc = task_idx(self.tasks@, wave@[k as int]@);
                        assert(id_in_tasks(self.tasks@, wave@[k as int]@));
                        if jc < j as int {
                            assert(self.tasks@[jc].id@ != self.tasks@[j as int].id@);
                        } else if (j as int) < jc {
                            assert(self.tasks@[j as int].id@ != self.tasks@[jc].id@);
                        }
                        assert(jc == j as int);
                    }
                    if self.tasks[j].status == TaskStatus::Pending {
                        let t = clone_task(&self.tasks[j]);
                        r.push(t);
                    }
                },
            }
            k = k + 1;
        }
        proof {
            assert(wave@.take(wave@.len() as int) =~= wave@);
        }
        r
    }
}


/// ASCII whitespace trimmed from dependency names.
pub open spec fn is_space_char(c: char) -> bool {
    c == ' ' || c == '\t' || c == '\n' || c == '\r'
}

/// `s` with leading whitespace removed.
pub open spec fn trim_chars_front(s: Seq<char>) -> Seq<char>
    decreases s.len(),
{
    if s.len() > 0 && is_space_char(s[0]) {
        trim_chars_front(s.drop_first())
    } else {
        s
    }
}

/// `s` with trailing whitespace removed.
pub open spec fn trim_chars_back(s: Seq<char>) -> Seq<char>
    decreases s.len(),
{
    if s.len() > 0 && is_space_char(s[s.len() - 1]) {
        trim_chars_back(s.drop_last())
    } else {
        s
    }
}

/// `s` with whitespace removed from both ends.
pub open spec fn trim_chars(s: Seq<char>) -> Seq<char> {
    trim_chars_back(trim_chars_front(s))
}

/// The pieces of `s` between commas, in order; one more piece than there
/// are commas.
pub open spec fn split_commas_chars(s: Seq<char>) -> Seq<Seq<char>>
    decreases s.len(),
{
    if s.len() == 0 {
        seq![Seq::<char>::empty()]
    } else if s[0] == ',' {
        seq![Seq::<char>::empty()] + split_commas_chars(s.drop_first())
    } else {
        let rest = split_commas_chars(s.drop_first());
        seq![seq![s[0]] + rest[0]] + rest.drop_first()
    }
}

/// The dependency list denoted by a comma-separated string: each piece
/// trimmed, empty pieces dropped.
pub open spec fn dep_list(s: Seq<char>) -> Seq<Seq<char>> {
    split_commas_chars(s).map_values(|p: Seq<char>| trim_chars(p)).filter(
        |p: Seq<char>| p.len() != 0,
    )
}

proof fn lemma_split_chars_nonempty(s: Seq<char>)
    ensures
        split_commas_chars(s).len() >= 1,
    decreases s.len(),
{
    if s.len() > 0 {
        lemma_split_chars_nonempty(s.drop_first());
    }
}

proof fn lemma_trim_chars_front_skip(s: Seq<char>, k: int)
    requires
        0 <= k <= s.len(),
        forall|i: int| 0 <= i < k ==> is_space_char(#[trigger] s[i]),
    ensures
        trim_chars_front(s) == trim_chars_front(s.skip(k)),
    decreases k,
{
    if k > 0 {
        assert(s.drop_first() =~= s.skip(1));
        assert(s.skip(1).skip(k - 1) =~= s.skip(k));
        lemma_trim_chars_front_skip(s.skip(1), k - 1);
    } else {
        assert(s.skip(0) =~= s);
    }
}

proof fn lemma_trim_chars_back_take(s: Seq<char>, k: int)
    requires
        0 <= k <= s.len(),
        forall|i: int| k <= i < s.len() ==> is_space_char(#[trigger] s[i]),
    ensures
        trim_chars_back(s) == trim_chars_back(s.take(k)),
    decreases s.len() - k,
{
    if k < s.len() {
        assert(s.drop_last() =~= s.take(s.len() - 1));
        assert(s.take(s.len() - 1).take(k) =~= s.take(k));
        lemma_trim_chars_back_take(s.take(s.len() - 1), k);
    } else {
        assert(s.take(s.len() as int) =~= s);
    }
}

/// Is the character at `idx` ASCII whitespace?
fn ws_at(s: &str, idx: usize) -> (r: bool)
    requires
        idx < s@.len(),
    ensures
        r == is_space_char(s@[idx as int]),
{
    let c = s.get_char(idx);
    c == ' ' || c == '\t' || c == '\n' || c == '\r'
}

/// The trimmed sub-piece of `s` between `st` and `en`.
fn trim_range(s: &str, st: usize, en: usize) -> (r: (usize, usize))
    requires
        st <= en <= s@.len(),
    ensures
        st <= r.0 <= r.1 <= en,
        s@.subrange(r.0 as int, r.1 as int) == trim_chars(s@.subrange(st as int, en as int)),
{
    let ghost p = s@.subrange(st as int, en as int);
    let mut lo: usize = st;
    while lo < en && ws_at(s, lo)
        invariant
            st <= lo <= en <= s@.len(),
            forall|i: int| st <= i < lo ==> is_space_char(#[trigger] s@[i]),
        decreases en - lo,
    {
        lo = lo + 1;
    }
    proof {
        assert(forall|i: int| 0 <= i < lo - st ==> is_space_char(#[trigger] p[i]));
        lemma_trim_chars_front_skip(p, lo - st);
        assert(p.skip(lo - st) =~= s@.subrange(lo as int, en as int));
        if lo < en {
            assert(!is_space_char(s@[lo as int]));
            assert(p.skip(lo - st)[0] == s@[lo as int]);
        }
        assert(trim_chars_front(p) == s@.subrange(lo as int, en as int));
    }
    let mut hi: usize = en;
    while hi > lo && ws_at(s, hi - 1)
        invariant
            lo <= hi <= en,
            en <= s@.len(),
            forall|i: int| hi <= i < en ==> is_space_char(#[trigger] s@[i]),
        decreases hi,
    {
        hi = hi - 1;
    }
    proof {
        let front = s@.subrange(lo as int, en as int);
        assert(forall|i: int| hi - lo <= i < front.len() ==> is_space_char(#[trigger] front[i]));
        lemma_trim_chars_back_take(front, hi - lo);
        assert(front.take(hi - lo) =~= s@.subrange(lo as int, hi as int));
        if hi > lo {
            assert(!is_space_char(s@[hi - 1]));
            assert(s@.subrange(lo as int, hi as int).len() > 0);
            assert(s@.subrange(lo as int, hi as int)[hi - lo - 1] == s@[hi - 1]);
        }
        assert(trim_chars_back(s@.subrange(lo as int, hi as int)) == s@.subrange(
            lo as int,
            hi as int,
        ));
    }
    (lo, hi)
}

/// Parse a comma-separated dependency string: split at commas, trim each
/// piece, drop the empty ones.
#[verifier::rlimit(50)]
#[verifier::spinoff_prover]
pub fn parse_depends_on(s: &str) -> (r: Vec<String>)
    ensures
        r.deep_view() == dep_list(s@),
{
    let n = s.unicode_len();
    let mut out: Vec<String> = Vec::new();
    let ghost mut graw: Seq<Seq<char>> = Seq::empty();
    let mut st: usize = 0;
    let mut i: usize = 0;
    proof {
        reveal(Seq::filter);
        lemma_split_chars_nonempty(s@);
        assert(s@.skip(0) =~= s@);
        let sp = split_commas_chars(s@);
        assert(sp =~= graw + seq![s@.subrange(0, 0) + sp[0]] + sp.drop_first());
        assert(out.deep_view() =~~= graw.map_values(|p: Seq<char>| trim_chars(p)).filter(
            |p: Seq<char>| p.len() != 0,
        ));
    }
    while i < n
        invariant
            0 <= st <= i <= n,
            n == s@.len(),
            split_commas_chars(s@) == graw + seq![
                s@.subrange(st as int, i as int) + split_commas_chars(s@.skip(i as int))[0]
            ] + split_commas_chars(s@.skip(i as int)).drop_first(),
            out.deep_view() == graw.map_values(|p: Seq<char>| trim_chars(p)).filter(
                |p: Seq<char>| p.len() != 0,
            ),
        decreases n - i,
    {
        let c = s.get_char(i);
        proof {
            let rest = s@.skip(i as int);
            assert(rest.len() > 0);
            assert(rest[0] == s@[i as int]);
            assert(rest.drop_first() =~= s@.skip(i + 1));
            lemma_split_chars_nonempty(s@.skip(i + 1));
            let nxt = split_commas_chars(s@.skip(i + 1));
            assert(seq![nxt[0]] + nxt.drop_first() =~= nxt);
            if c == ',' {
                assert(split_commas_chars(rest) =~= seq![Seq::<char>::empty()] + nxt);
            } else {
                assert(split_commas_chars(rest) =~= seq![seq![rest[0]] + nxt[0]]
                    + nxt.drop_first());
                assert(s@.subrange(st as int, i as int) + (seq![rest[0]] + nxt[0]) =~= s@.subrange(
                    st as int,
                    i + 1,
                ) + nxt[0]);
            }
        }
        if c == ',' {
            let b = trim_range(s, st, i);
            let ghost p = s@.subrange(st as int, i as int);
            let ghost old_out = out.deep_view();
            let ghost tf = graw.map_values(|q: Seq<char>| trim_chars(q));
            if b.0 < b.1 {
                let piece = s.substring_char(b.0, b.1);
                out.push(piece.to_owned());
            }
            proof {
                reveal(Seq::filter);
                let trimmed = trim_chars(p);
                assert(graw.push(p).map_values(|q: Seq<char>| trim_chars(q)) =~~= tf.push(trimmed));
                assert(tf.push(trimmed).drop_last() =~= tf);
                assert(tf.push(trimmed).last() == trimmed);
                let pr = (|q: Seq<char>| q.len() != 0);
                assert(tf.push(trimmed).filter(pr) == if pr(trimmed) {
                    tf.filter(pr).push(trimmed)
                } else {
                    tf.filter(pr)
                });
                if b.0 < b.1 {
                    assert(trimmed.len() != 0);
                    assert(out.deep_view() =~~= old_out.push(trimmed));
                } else {
                    assert(trimmed.len() == 0);
                    assert(out.deep_view() == old_out);
                }
                graw = graw.push(p);
                assert(out.deep_view() =~~= graw.map_values(|q: Seq<char>| trim_chars(q)).filter(
                    |q: Seq<char>| q.len() != 0,
                ));
                assert(s@.subrange(i + 1, i + 1) =~= Seq::<char>::empty());
                let nxt = split_commas_chars(s@.skip(i + 1));
                assert(graw + seq![s@.subrange(i + 1, i + 1) + nxt[0]] + nxt.drop_first()
                    =~= (graw.drop_last()) + seq![p + Seq::<char>::empty()] + (seq![
                    Seq::<char>::empty() + nxt[0]
                ] + nxt.drop_first()));
                assert(p + Seq::<char>::empty() =~= p);
                assert(Seq::<char>::empty() + nxt[0] =~= nxt[0]);
                assert(graw.drop_last() + seq![p] + (seq![nxt[0]] + nxt.drop_first())
                    =~= graw.drop_last() + seq![p + split_commas_chars(s@.skip(i as int))[0]]
                    + split_commas_chars(s@.skip(i as int)).drop_first());
            }
            st = i + 1;
        }
        i = i + 1;
    }
    let b = trim_range(s, st, n);
    let ghost p = s@.subrange(st as int, n as int);
    let ghost old_out = out.deep_view();
    let ghost tf = graw.map_values(|q: Seq<char>| trim_chars(q));
    if b.0 < b.1 {
        let piece = s.substring_char(b.0, b.1);
        out.push(piece.to_owned());
    }
    proof {
        reveal(Seq::filter);
        let trimmed = trim_chars(p);
        assert(graw.push(p).map_values(|q: Seq<char>| trim_chars(q)) =~~= tf.push(trimmed));
        assert(tf.push(trimmed).drop_last() =~= tf);
        assert(tf.push(trimmed).last() == trimmed);
        let pr = (|q: Seq<char>| q.len() != 0);
        assert(tf.push(trimmed).filter(pr) == if pr(trimmed) {
            tf.filter(pr).push(trimmed)
        } else {
            tf.filter(pr)
        });
        if b.0 < b.1 {
            assert(trimmed.len() != 0);
            assert(out.deep_view() =~~= old_out.push(trimmed));
        } else {
            assert(trimmed.len() == 0);
            assert(out.deep_view() == old_out);
        }
        graw = graw.push(p);
        assert(out.deep_view() =~~= graw.map_values(|q: Seq<char>| trim_chars(q)).filter(
            |q: Seq<char>| q.len() != 0,
        ));
        assert(s@.skip(n as int) =~= Seq::<char>::empty());
        let e = split_commas_chars(Seq::<char>::empty());
        assert(e =~= seq![Seq::<char>::empty()]);
        assert(split_commas_chars(s@) =~= graw.drop_last().push(p));
        assert(graw.drop_last().push(p) =~= graw);
        assert(out.deep_view() =~~= dep_list(s@));
    }
    out
}


/// The text of an optional field, empty when absent.
pub open spec fn blank_or(o: Option<String>) -> Seq<char> {
    match o {
        Some(t) => t@,
        None => Seq::<char>::empty(),
    }
}

/// The task a descriptor builds: the explicit id or a fresh 8-character
/// one, the agent and task text (empty when absent), the parsed
/// dependency list, pending status and no result yet.
pub open spec fn task_from_descriptor(t: Task, d: TaskDescriptor) -> bool {
    &&& (match d.id {
        Some(id) => t.id@ == id@,
        None => t.id@.len() == 8,
    })
    &&& t.agent_id@ == blank_or(d.agent_id)
    &&& t.description@ == blank_or(d.task)
    &&& t.depends_on.deep_view() == dep_list(blank_or(d.depends_on))
    &&& t.status is Pending
    &&& t.result is None
}

/// The task was built from one of the descriptors.
pub open spec fn task_sourced(t: Task, ds: Seq<TaskDescriptor>) -> bool {
    exists|d: int| 0 <= d < ds.len() && task_from_descriptor(t, #[trigger] ds[d])
}

/// Every descriptor names its task explicitly, and no two name the same.
pub open spec fn explicit_distinct_ids(ds: Seq<TaskDescriptor>) -> bool {
    &&& (forall|d: int| 0 <= d < ds.len() ==> #[trigger] ds[d].id is Some)
    &&& (forall|d1: int, d2: int|
        0 <= d1 < d2 < ds.len() ==> #[trigger] ds[d1].id->Some_0@ != #[trigger] ds[
            d2].id->Some_0@)
}

/// Everything task building guarantees: at most one task per descriptor
/// (a repeated id replaces the earlier task); every task is pending, has
/// no result yet, and was built from one of the descriptors; every
/// explicit descriptor id is present; and when every descriptor carries
/// its own distinct id, the tasks correspond to the descriptors one to
/// one, in order.
#[verifier::opaque]
pub open spec fn tasks_built_from(built: Seq<Task>, ds: Seq<TaskDescriptor>) -> bool {
    &&& built.len() <= ds.len()
    &&& (forall|j: int| 0 <= j < built.len() ==> #[trigger] built[j].status is Pending)
    &&& (forall|j: int| 0 <= j < built.len() ==> task_sourced(#[trigger] built[j], ds))
    &&& (forall|d2: int|
        (0 <= d2 < ds.len() && #[trigger] ds[d2].id is Some) ==> id_in_tasks(
            built,
            ds[d2].id->Some_0@,
        ))
    &&& (explicit_distinct_ids(ds) ==> (built.len() == ds.len() && (forall|k: int|
        0 <= k < ds.len() ==> task_from_descriptor(#[trigger] built[k], ds[k]))))
}

/// An absent dependency string parses to no dependencies.
proof fn lemma_dep_list_empty()
    ensures
        dep_list(Seq::<char>::empty()) == Seq::<Seq<char>>::empty(),
{
    reveal(Seq::filter);
    let sp = split_commas_chars(Seq::<char>::empty());
    assert(sp =~= seq![Seq::<char>::empty()]);
    assert(trim_chars(Seq::<char>::empty()) =~= Seq::<char>::empty());
    let mapped = sp.map_values(|p: Seq<char>| trim_chars(p));
    assert(mapped =~~= seq![Seq::<char>::empty()]);
    assert(mapped.drop_last() =~= Seq::<Seq<char>>::empty());
    assert(mapped.last().len() == 0);
    assert(mapped.filter(|p: Seq<char>| p.len() != 0) == mapped.drop_last().filter(
        |p: Seq<char>| p.len() != 0,
    ));
    assert(Seq::<Seq<char>>::empty().filter(|p: Seq<char>| p.len() != 0)
        == Seq::<Seq<char>>::empty());
    assert(mapped.filter(|p: Seq<char>| p.len() != 0) =~~= Seq::<Seq<char>>::empty());
}

/// What a host hands in for one task: an optional explicit id, the
/// responsible agent, the task text, and a comma-separated list of the
/// task ids it depends on.
pub struct TaskDescriptor {
    pub id: Option<String>,
    pub agent_id: Option<String>,
    pub task: Option<String>,
    pub depends_on: Option<String>,
}

/// Errors of the scheduler.
#[derive(Debug)]
pub enum SchedulerError {
    MissionNotFound(String),
    MissionAlreadyExists(String),
    Timeout(String),
}

impl SchedulerError {
    /// A human-readable rendering of the error.
    pub fn message(&self) -> (r: String)
        ensures
            (self is MissionNotFound ==> r@ == "Mission not found: "@ + self->MissionNotFound_0@),
            (self is MissionAlreadyExists ==> r@ == "Mission already exists: "@
                + self->MissionAlreadyExists_0@),
            (self is Timeout ==> r@ == "Timeout: "@ + self->Timeout_0@),
    {
        match self {
            SchedulerError::MissionNotFound(id) => String::from_str("Mission not found: ").concat(
                id.as_str(),
            ),
            SchedulerError::MissionAlreadyExists(id) => String::from_str(
                "Mission already exists: ",
            ).concat(id.as_str()),
            SchedulerError::Timeout(what) => String::from_str("Timeout: ").concat(what.as_str()),
        }
    }
}

proof fn lemma_count_completed_zero(tasks: Seq<Task>)
    requires
        forall|j: int| 0 <= j < tasks.len() ==> !(#[trigger] tasks[j].status is Completed),
    ensures
        count_completed(tasks) == 0,
    decreases tasks.len(),
{
    if tasks.len() > 0 {
        lemma_count_completed_zero(tasks.drop_last());
    }
}

/// Insert `t`, replacing any task that already carries its id, as a map
/// keyed by task id would.
fn upsert_task(tasks: &mut Vec<Task>, t: Task)
    requires
        unique_ids(old(tasks)@),
    ensures
        unique_ids(final(tasks)@),
        (if id_in_tasks(old(tasks)@, t.id@) {
            final(tasks)@ == old(tasks)@.update(task_idx(old(tasks)@, t.id@), t)
        } else {
            final(tasks)@ == old(tasks)@.push(t)
        }),
{
    let ghost t0 = tasks@;
    let found = find_task(tasks, &t.id);
    match found {
        Some(j) => {
            proof {
                let jc = task_idx(t0, t.id@);
                assert(id_in_tasks(t0, t.id@));
                if jc < j as int {
                    assert(t0[jc].id@ != t0[j as int].id@);
                } else if (j as int) < jc {
                    assert(t0[j as int].id@ != t0[jc].id@);
                }
                assert(jc == j as int);
            }
            tasks.set(j, t);
            proof {
                assert forall|j1: int, j2: int|
                    0 <= j1 < j2 < tasks@.len() implies #[trigger] tasks@[j1].id@
                    != #[trigger] tasks@[j2].id@ by {
                    assert(t0[j1].id@ != t0[j2].id@);
                }
            }
        },
        None => {
            tasks.push(t);
            proof {
                assert forall|j1: int, j2: int|
                    0 <= j1 < j2 < tasks@.len() implies #[trigger] tasks@[j1].id@
                    != #[trigger] tasks@[j2].id@ by {
                    if j2 < t0.len() {
                        assert(t0[j1].id@ != t0[j2].id@);
                    } else {
                        assert(tasks@[j2] == t);
                        assert(tasks@[j1] == t0[j1]);
                        assert(!id_in_tasks(t0, t.id@));
                    }
                }
            }
        },
    }
}

/// Build the task set from the descriptors: explicit ids kept, missing
/// ids drawn fresh, absent fields empty, dependencies parsed from the
/// comma-separated string; a repeated id replaces the earlier task, as a
/// map keyed by task id would.
#[verifier::rlimit(100)]
#[verifier::spinoff_prover]
fn build_tasks(tasks: &Vec<TaskDescriptor>) -> (built: Vec<Task>)
    ensures
        unique_ids(built@),
        count_completed(built@) == 0,
        tasks_built_from(built@, tasks@),
{
    let mut built: Vec<Task> = Vec::new();
    let mut d: usize = 0;
    while d < tasks.len()
        invariant
            0 <= d <= tasks@.len(),
            unique_ids(built@),
            built@.len() <= d,
            forall|j: int| 0 <= j < built@.len() ==> #[trigger] built@[j].status is Pending,
            forall|j: int| 0 <= j < built@.len() ==> task_sourced(#[trigger] built@[j], tasks@),
            forall|d2: int|
                (0 <= d2 < d && #[trigger] tasks@[d2].id is Some) ==> id_in_tasks(
                    built@,
                    tasks@[d2].id->Some_0@,
                ),
            explicit_distinct_ids(tasks@) ==> (built@.len() == d && (forall|k: int|
                0 <= k < d ==> task_from_descriptor(#[trigger] built@[k], tasks@[k]))),
        decreases tasks@.len() - d,
    {
        let ghost b0 = built@;
        let td = &tasks[d];
        let id = match &td.id {
            Some(x) => x.clone(),
            None => crate::host::fresh_short_id(8),
        };
        let agent_id = match &td.agent_id {
            Some(x) => x.clone(),
            None => String::new(),
        };
        let description = match &td.task {
            Some(x) => x.clone(),
            None => String::new(),
        };
        let depends_on = match &td.depends_on {
            Some(x) => parse_depends_on(x.as_str()),
            None => Vec::new(),
        };
        let ghost idv = id@;
        let t = Task {
            id,
            agent_id,
            description,
            depends_on,
            status: TaskStatus::Pending,
            result: None,
        };
        proof {
            lemma_dep_list_empty();
            assert(t.depends_on.deep_view() =~~= dep_list(blank_or(tasks@[d as int].depends_on)));
            assert(task_from_descriptor(t, tasks@[d as int]));
            if explicit_distinct_ids(tasks@) {
                assert forall|jw: int| 0 <= jw < b0.len() implies #[trigger] b0[jw].id@
                    != idv by {
                    assert(task_from_descriptor(b0[jw], tasks@[jw]));
                    assert(b0[jw].id@ == tasks@[jw].id->Some_0@);
                    assert(tasks@[jw].id->Some_0@ != tasks@[d as int].id->Some_0@);
                }
                assert(!id_in_tasks(b0, idv));
            }
        }
        upsert_task(&mut built, t);
        proof {
            assert forall|j: int| 0 <= j < built@.len() implies task_sourced(
                #[trigger] built@[j],
                tasks@,
            ) by {
                if id_in_tasks(b0, idv) {
                    let ju = task_idx(b0, idv);
                    if j == ju {
                        assert(built@[j] == t);
                        assert(task_from_descriptor(built@[j], tasks@[d as int]));
                    } else {
                        assert(built@[j] == b0[j]);
                    }
                } else {
                    if j < b0.len() {
                        assert(built@[j] == b0[j]);
                    } else {
                        assert(built@[j] == t);
                        assert(task_from_descriptor(built@[j], tasks@[d as int]));
                    }
                }
            }
            if explicit_distinct_ids(tasks@) {
                assert(built@ == b0.push(t));
                assert forall|k: int| 0 <= k < d + 1 implies task_from_descriptor(
                    #[trigger] built@[k],
                    tasks@[k],
                ) by {
                    if k < d {
                        assert(built@[k] == b0[k]);
                    } else {
                        assert(built@[k] == t);
                    }
                }
            }
            if id_in_tasks(b0, idv) {
                let ju = task_idx(b0, idv);
                assert(built@ == b0.update(ju, t));
                assert forall|d2: int|
                    (0 <= d2 < d + 1 && #[trigger] tasks@[d2].id is Some) implies id_in_tasks(
                    built@,
                    tasks@[d2].id->Some_0@,
                ) by {
                    if d2 < d {
                        let jw = choose|jw: int|
                            0 <= jw < b0.len() && b0[jw].id@ == tasks@[d2].id->Some_0@;
                        if jw == ju {
                            assert(built@[ju].id@ == t.id@);
                            assert(b0[ju].id@ == idv);
                        } else {
                            assert(built@[jw].id@ == b0[jw].id@);
                        }
                    } else {
                        assert(built@[ju].id@ == idv);
                    }
                }
            } else {
                assert(built@ == b0.push(t));
                assert forall|d2: int|
                    (0 <= d2 < d + 1 && #[trigger] tasks@[d2].id is Some) implies id_in_tasks(
                    built@,
                    tasks@[d2].id->Some_0@,
                ) by {
                    if d2 < d {
                        let jw = choose|jw: int|
                            0 <= jw < b0.len() && b0[jw].id@ == tasks@[d2].id->Some_0@;
                        assert(built@[jw].id@ == b0[jw].id@);
                    } else {
                        assert(built@[b0.len() as int].id@ == idv);
                    }
                }
            }
        }
        d = d + 1;
    }
    proof {
        lemma_count_completed_zero(built@);
        reveal(tasks_built_from);
        assert(tasks_built_from(built@, tasks@));
    }
    built
}

/// Some mission in `ms` carries the id `id`.
pub open spec fn mission_exists(ms: Seq<Mission>, id: Seq<char>) -> bool {
    exists|i: int| 0 <= i < ms.len() && #[trigger] ms[i].id@ == id
}

/// The index of the mission carrying `id` (meaningful when one does).
pub open spec fn mission_idx(ms: Seq<Mission>, id: Seq<char>) -> int {
    choose|i: int| 0 <= i < ms.len() && ms[i].id@ == id
}

/// The in-memory mission table. The host drives progress by asking for
/// ready tasks and reporting completions; no polling loop runs here.
pub struct Scheduler {
    pub missions: Vec<Mission>,
    pub running: bool,
}

/// Well-formedness of the scheduler: every mission is well-formed and
/// mission ids are unique.
pub open spec fn scheduler_wf(s: Scheduler) -> bool {
    &&& forall|i: int| 0 <= i < s.missions@.len() ==> mission_wf(#[trigger] s.missions@[i])
    &&& forall|i: int, j: int|
        0 <= i < j < s.missions@.len() ==> #[trigger] s.missions@[i].id@ != #[trigger] s.missions@[
            j
        ].id@
}

/// A snapshot of a mission's progress.
pub struct MissionSummary {
    pub id: String,
    pub status: MissionStatus,
    pub completed_tasks: usize,
    pub total_tasks: usize,
    pub current_level: usize,
}

impl Scheduler {
    /// An empty scheduler. The poll interval is accepted for interface
    /// compatibility and is informational only at this layer.
    pub fn new(_poll_interval_ms: Option<u64>) -> (s: Scheduler)
        ensures
            scheduler_wf(s),
            s.missions@.len() == 0,
            s.running == false,
    {
        Scheduler { missions: Vec::new(), running: false }
    }

    /// No polling loop runs; `running` only reports the flag.
    pub fn stop_loop(&mut self)
        ensures
            final(self).missions == old(self).missions,
            final(self).running == false,
    {
        self.running = false;
    }

    pub fn is_running(&self) -> (r: bool)
        ensures
            r == self.running,
    {
        self.running
    }

    /// Find the mission carrying `id`.
    fn find_mission(&self, id: &String) -> (r: Option<usize>)
        ensures
            match r {
                Some(i) => 0 <= i < self.missions@.len() && self.missions@[i as int].id@ == id@,
                None => !mission_exists(self.missions@, id@),
            },
    {
        let mut i: usize = 0;
        while i < self.missions.len()
            invariant
                0 <= i <= self.missions@.len(),
                forall|i2: int| 0 <= i2 < i ==> #[trigger] self.missions@[i2].id@ != id@,
            decreases self.missions@.len() - i,
        {
            if self.missions[i].id == *id {
                return Some(i);
            }
            i = i + 1;
        }
        None
    }

    /// Submit a mission: reject an id already in use, give every task
    /// lacking an id a fresh one, parse its dependency list, and layer the
    /// tasks into waves. The new mission starts running at wave zero with
    /// nothing completed, and its wave lengths sum to its task count even
    /// when the dependency graph has a cycle.
    #[verifier::rlimit(100)]
    #[verifier::spinoff_prover]
    pub fn submit_mission(&mut self, mission_id: String, tasks: Vec<TaskDescriptor>) -> (r: Result<
        (),
        SchedulerError,
    >)
        requires
            scheduler_wf(*old(self)),
        ensures
            scheduler_wf(*final(self)),
            final(self).running == old(self).running,
            r is Err <==> mission_exists(old(self).missions@, mission_id@),
            r is Err ==> (*final(self) == *old(self) && r->Err_0 is MissionAlreadyExists),
            r is Ok ==> ({
                let m = final(self).missions@.last();
                &&& final(self).missions@.len() == old(self).missions@.len() + 1
                &&& (forall|i: int|
                    0 <= i < old(self).missions@.len() ==> #[trigger] final(self).missions@[i]
                        == old(self).missions@[i])
                &&& m.id == mission_id
                &&& m.status is Running
                &&& m.current_level == 0
                &&& m.completed_tasks == 0
                &&& m.completed_at is None
                &&& m.total_tasks == m.tasks@.len()
                &&& levels_wf(m.tasks@, m.levels@)
                &&& tasks_built_from(m.tasks@, tasks@)
            }),
    {
        let existing = self.find_mission(&mission_id);
        if existing.is_some() {
            return Err(SchedulerError::MissionAlreadyExists(mission_id));
        }
        let built = build_tasks(&tasks);
        let total = built.len();
        let levels = build_levels(&built);
        let ghost gbuilt = built@;
        let ghost glevels = levels@;
        let m = Mission {
            id: mission_id,
            status: MissionStatus::Running,
            tasks: built,
            completed_tasks: 0,
            total_tasks: total,
            levels,
            current_level: 0,
            created_at: crate::host::now_rfc3339(),
            completed_at: None,
        };
        proof {
            assert(m.tasks@ == gbuilt);
            assert(m.levels@ == glevels);
            assert(levels_wf(m.tasks@, m.levels@));
            assert(tasks_built_from(m.tasks@, tasks@));
            assert(m.current_level <= m.levels@.len());
        }
        let ghost ms0 = self.missions@;
        self.missions.push(m);
        proof {
            assert forall|i: int, j: int|
                0 <= i < j < self.missions@.len() implies #[trigger] self.missions@[i].id@
                != #[trigger] self.missions@[j].id@ by {
                if j < ms0.len() {
                    assert(ms0[i].id@ != ms0[j].id@);
                } else {
                    assert(!mission_exists(ms0, self.missions@[j].id@));
                }
            }
        }
        Ok(())
    }

    /// A progress snapshot of the mission, when it exists.
    pub fn get_mission(&self, mission_id: &String) -> (r: Option<MissionSummary>)
        requires
            scheduler_wf(*self),
        ensures
            r is Some <==> mission_exists(self.missions@, mission_id@),
            r is Some ==> ({
                let m = self.missions@[mission_idx(self.missions@, mission_id@)];
                &&& r->Some_0.id@ == m.id@
                &&& r->Some_0.status == m.status
                &&& r->Some_0.completed_tasks == m.completed_tasks
                &&& r->Some_0.total_tasks == m.total_tasks
                &&& r->Some_0.current_level == m.current_level
            }),
    {
        let found = self.find_mission(mission_id);
        match found {
            None => None,
            Some(i) => {
                proof {
                    let ic = mission_idx(self.missions@, mission_id@);
                    assert(mission_exists(self.missions@, mission_id@));
                    if ic < i as int {
                        assert(self.missions@[ic].id@ != self.missions@[i as int].id@);
                    } else if (i as int) < ic {
                        assert(self.missions@[i as int].id@ != self.missions@[ic].id@);
                    }
                }
                let m = &self.missions[i];
                Some(
                    MissionSummary {
                        id: m.id.clone(),
                        status: m.status,
                        completed_tasks: m.completed_tasks,
                        total_tasks: m.total_tasks,
                        current_level: m.current_level,
                    },
                )
            },
        }
    }

    /// Report `task_id` completed within a mission; true when the mission
    /// exists.
    pub fn complete_task(&mut self, mission_id: &String, task_id: &String, result: Option<String>)
        -> (r: bool)
        requires
            scheduler_wf(*old(self)),
        ensures
            scheduler_wf(*final(self)),
            final(self).running == old(self).running,
            r == mission_exists(old(self).missions@, mission_id@),
            !r ==> *final(self) == *old(self),
            r ==> ({
                let i = mission_idx(old(self).missions@, mission_id@);
                &&& final(self).missions@.len() == old(self).missions@.len()
                &&& (forall|i2: int|
                    0 <= i2 < final(self).missions@.len() && i2 != i
                        ==> #[trigger] final(self).missions@[i2] == old(self).missions@[i2])
                &&& complete_post(
                    old(self).missions@[i],
                    final(self).missions@[i],
                    task_id@,
                    result,
                )
            }),
    {
        let found = self.find_mission(mission_id);
        match found {
            None => false,
            Some(i) => {
                proof {
                    let ic = mission_idx(self.missions@, mission_id@);
                    assert(mission_exists(self.missions@, mission_id@));
                    if ic < i as int {
                        assert(self.missions@[ic].id@ != self.missions@[i as int].id@);
                    } else if (i as int) < ic {
                        assert(self.missions@[i as int].id@ != self.missions@[ic].id@);
                    }
                }
                let ghost ms0 = self.missions@;
                let mut m = self.missions.remove(i);
                m.complete_task(task_id, result, crate::host::now_rfc3339());
                self.missions.insert(i, m);
                proof {
                    assert(self.missions@ =~= ms0.update(i as int, self.missions@[i as int]));
                    assert forall|i1: int, j1: int|
                        0 <= i1 < j1 < self.missions@.len() implies #[trigger] self.missions@[
                        i1
                    ].id@ != #[trigger] self.missions@[j1].id@ by {
                        assert(self.missions@[i1].id@ == ms0[i1].id@);
                        assert(self.missions@[j1].id@ == ms0[j1].id@);
                        assert(ms0[i1].id@ != ms0[j1].id@);
                    }
                }
                true
            },
        }
    }

    /// Report `task_id` failed: the task and its whole mission fail at
    /// once. True when the mission exists.
    pub fn fail_task(&mut self, mission_id: &String, task_id: &String, error: String) -> (r: bool)
        requires
            scheduler_wf(*old(self)),
        ensures
            scheduler_wf(*final(self)),
            final(self).running == old(self).running,
            r == mission_exists(old(self).missions@, mission_id@),
            !r ==> *final(self) == *old(self),
            r ==> ({
                let i = mission_idx(old(self).missions@, mission_id@);
                &&& final(self).missions@.len() == old(self).missions@.len()
                &&& (forall|i2: int|
                    0 <= i2 < final(self).missions@.len() && i2 != i
                        ==> #[trigger] final(self).missions@[i2] == old(self).missions@[i2])
                &&& fail_post(old(self).missions@[i], final(self).missions@[i], task_id@, error)
            }),
    {
        let found = self.find_mission(mission_id);
        match found {
            None => false,
            Some(i) => {
                proof {
                    let ic = mission_idx(self.missions@, mission_id@);
                    assert(mission_exists(self.missions@, mission_id@));
                    if ic < i as int {
                        assert(self.missions@[ic].id@ != self.missions@[i as int].id@);
                    } else if (i as int) < ic {
                        assert(self.missions@[i as int].id@ != self.missions@[ic].id@);
                    }
                }
                let ghost ms0 = self.missions@;
                let mut m = self.missions.remove(i);
                m.fail_task(task_id, error, crate::host::now_rfc3339());
                self.missions.insert(i, m);
                proof {
                    assert(self.missions@ =~= ms0.update(i as int, self.missions@[i as int]));
                    assert forall|i1: int, j1: int|
                        0 <= i1 < j1 < self.missions@.len() implies #[trigger] self.missions@[
                        i1
                    ].id@ != #[trigger] self.missions@[j1].id@ by {
                        assert(self.missions@[i1].id@ == ms0[i1].id@);
                        assert(self.missions@[j1].id@ == ms0[j1].id@);
                        assert(ms0[i1].id@ != ms0[j1].id@);
                    }
                }
                true
            },
        }
    }

    /// Move a pending task of a mission to running; true only when the
    /// mission exists and the task was pending.
    pub fn start_task(&mut self, mission_id: &String, task_id: &String) -> (r: bool)
        requires
            scheduler_wf(*old(self)),
        ensures
            scheduler_wf(*final(self)),
            final(self).running == old(self).running,
            r ==> mission_exists(old(self).missions@, mission_id@),
            !r ==> final(self).missions@ == old(self).missions@,
            mission_exists(old(self).missions@, mission_id@) ==> ({
                let i = mission_idx(old(self).missions@, mission_id@);
                &&& r == can_start(old(self).missions@[i].tasks@, task_id@)
                &&& final(self).missions@.len() == old(self).missions@.len()
                &&& (forall|i2: int|
                    0 <= i2 < final(self).missions@.len() && i2 != i
                        ==> #[trigger] final(self).missions@[i2] == old(self).missions@[i2])
                &&& tasks_frame(
                    old(self).missions@[i].tasks@,
                    final(self).missions@[i].tasks@,
                )
                &&& final(self).missions@[i].status == old(self).missions@[i].status
                &&& (r ==> ({
                    let j = task_idx(old(self).missions@[i].tasks@, task_id@);
                    final(self).missions@[i].tasks@[j].status is Running
                }))
            }),
    {
        let found = self.find_mission(mission_id);
        match found {
            None => false,
            Some(i) => {
                proof {
                    let ic = mission_idx(self.missions@, mission_id@);
                    assert(mission_exists(self.missions@, mission_id@));
                    if ic < i as int {
                        assert(self.missions@[ic].id@ != self.missions@[i as int].id@);
                    } else if (i as int) < ic {
                        assert(self.missions@[i as int].id@ != self.missions@[ic].id@);
                    }
                }
                let ghost ms0 = self.missions@;
                let mut m = self.missions.remove(i);
                let started = m.start_task(task_id);
                self.missions.insert(i, m);
                proof {
                    assert(self.missions@ =~= ms0.update(i as int, self.missions@[i as int]));
                    assert forall|i1: int, j1: int|
                        0 <= i1 < j1 < self.missions@.len() implies #[trigger] self.missions@[
                        i1
                    ].id@ != #[trigger] self.missions@[j1].id@ by {
                        assert(self.missions@[i1].id@ == ms0[i1].id@);
                        assert(self.missions@[j1].id@ == ms0[j1].id@);
                        assert(ms0[i1].id@ != ms0[j1].id@);
                    }
                    if !started {
                        assert(self.missions@ =~= ms0);
                    }
                }
                started
            },
        }
    }

    /// Cancel a running mission: it fails at once. No effect on a terminal
    /// mission or an unknown id.
    pub fn cancel_mission(&mut self, mission_id: &String) -> (r: bool)
        requires
            scheduler_wf(*old(self)),
        ensures
            scheduler_wf(*final(self)),
            final(self).running == old(self).running,
            !r ==> final(self).missions@ == old(self).missions@,
            r ==> mission_exists(old(self).missions@, mission_id@),
            mission_exists(old(self).missions@, mission_id@) ==> ({
                let i = mission_idx(old(self).missions@, mission_id@);
                &&& r == (old(self).missions@[i].status is Running)
                &&& final(self).missions@.len() == old(self).missions@.len()
                &&& (forall|i2: int|
                    0 <= i2 < final(self).missions@.len() && i2 != i
                        ==> #[trigger] final(self).missions@[i2] == old(self).missions@[i2])
                &&& (r ==> final(self).missions@[i].status is Failed)
                &&& (r ==> final(self).missions@[i].completed_at is Some)
                &&& (r ==> final(self).missions@[i].tasks == old(self).missions@[i].tasks)
            }),
    {
        let found = self.find_mission(mission_id);
        match found {
            None => false,
            Some(i) => {
                proof {
                    let ic = mission_idx(self.missions@, mission_id@);
                    assert(mission_exists(self.missions@, mission_id@));
                    if ic < i as int {
                        assert(self.missions@[ic].id@ != self.missions@[i as int].id@);
                    } else if (i as int) < ic {
                        assert(self.missions@[i as int].id@ != self.missions@[ic].id@);
                    }
                }
                let ghost ms0 = self.missions@;
                let mut m = self.missions.remove(i);
                let cancelled = m.cancel(crate::host::now_rfc3339());
                self.missions.insert(i, m);
                proof {
                    assert(self.missions@ =~= ms0.update(i as int, self.missions@[i as int]));
                    assert forall|i1: int, j1: int|
                        0 <= i1 < j1 < self.missions@.len() implies #[trigger] self.missions@[
                        i1
                    ].id@ != #[trigger] self.missions@[j1].id@ by {
                        assert(self.missions@[i1].id@ == ms0[i1].id@);
                        assert(self.missions@[j1].id@ == ms0[j1].id@);
                        assert(ms0[i1].id@ != ms0[j1].id@);
                    }
                    if !cancelled {
                        assert(self.missions@ =~= ms0);
                    }
                }
                cancelled
            },
        }
    }

    /// The pending tasks of the mission's current wave; empty for an
    /// unknown or terminal mission.
    pub fn get_ready_tasks(&self, mission_id: &String) -> (r: Vec<Task>)
        requires
            scheduler_wf(*self),
        ensures
            !mission_exists(self.missions@, mission_id@) ==> r@ == Seq::<Task>::empty(),
            mission_exists(self.missions@, mission_id@) ==> ({
                let m = self.missions@[mission_idx(self.missions@, mission_id@)];
                if m.status is Running && m.current_level < m.levels@.len() {
                    let rl = ready_list(m.tasks@, m.levels@[m.current_level as int]@);
                    r@.len() == rl.len() && (forall|i: int|
                        0 <= i < rl.len() ==> task_like(rl[i], #[trigger] r@[i]))
                } else {
                    r@ == Seq::<Task>::empty()
                }
            }),
    {
        let found = self.find_mission(mission_id);
        match found {
            None => Vec::new(),
            Some(i) => {
                proof {
                    let ic = mission_idx(self.missions@, mission_id@);
                    assert(mission_exists(self.missions@, mission_id@));
                    if ic < i as int {
                        assert(self.missions@[ic].id@ != self.missions@[i as int].id@);
                    } else if (i as int) < ic {
                        assert(self.missions@[i as int].id@ != self.missions@[ic].id@);
                    }
                }
                self.missions[i].get_ready_tasks()
            },
        }
    }

    /// The ids of all missions, in insertion order.
    pub fn list_missions(&self) -> (r: Vec<String>)
        ensures
            r@.len() == self.missions@.len(),
            forall|i: int| 0 <= i < r@.len() ==> #[trigger] r@[i]@ == self.missions@[i].id@,
    {
        let mut r: Vec<String> = Vec::new();
        let mut i: usize = 0;
        while i < self.missions.len()
            invariant
                0 <= i <= self.missions@.len(),
                r@.len() == i,
                forall|i2: int| 0 <= i2 < i ==> #[trigger] r@[i2]@ == self.missions@[i2].id@,
            decreases self.missions@.len() - i,
        {
            r.push(self.missions[i].id.clone());
            i = i + 1;
        }
        r
    }

    pub fn mission_count(&self) -> (r: usize)
        ensures
            r == self.missions@.len(),
    {
        self.missions.len()
    }

    /// Drop every terminal mission and report how many were dropped.
    pub fn clear_completed(&mut self) -> (r: usize)
        requires
            scheduler_wf(*old(self)),
        ensures
            scheduler_wf(*final(self)),
            final(self).running == old(self).running,
            final(self).missions@ == old(self).missions@.filter(
                |m: Mission| m.status is Running,
            ),
            r == old(self).missions@.len() - final(self).missions@.len(),
    {
        let ghost pred = (|m: Mission| m.status is Running);
        let ghost ms0 = self.missions@;
        let orig = self.missions.len();
        let mut i: usize = 0;
        let ghost mut seen: int = 0;
        proof {
            reveal(Seq::filter);
            assert(ms0.take(0) =~= Seq::<Mission>::empty());
            assert(self.missions@.take(0) =~= Seq::<Mission>::empty());
            assert(Seq::<Mission>::empty().filter(pred) =~= Seq::<Mission>::empty());
            assert(self.missions@.skip(0) =~= ms0.skip(0));
        }
        while i < self.missions.len()
            invariant
                0 <= i <= self.missions@.len(),
                0 <= seen <= ms0.len(),
                i <= seen,
                orig == ms0.len(),
                self.missions@.len() - i == ms0.len() - seen,
                scheduler_wf(*self),
                self.running == old(self).running,
                self.missions@.take(i as int) == ms0.take(seen).filter(pred),
                self.missions@.skip(i as int) == ms0.skip(seen),
            decreases self.missions@.len() - i,
        {
            let ghost cur = self.missions@;
            proof {
                reveal(Seq::filter);
                assert(cur.skip(i as int)[0] == cur[i as int]);
                assert(ms0.skip(seen)[0] == ms0[seen]);
                assert(cur[i as int] == ms0[seen]);
                assert(ms0.take(seen + 1).drop_last() =~= ms0.take(seen));
                assert(ms0.take(seen + 1).last() == ms0[seen]);
            }
            let st = self.missions[i].status;
            if st == MissionStatus::Running {
                proof {
                    assert(pred(ms0[seen]));
                    assert(ms0.take(seen + 1).filter(pred) == ms0.take(seen).filter(pred).push(
                        ms0[seen],
                    ));
                    assert(cur.take(i + 1) =~= cur.take(i as int).push(cur[i as int]));
                    assert(cur.skip(i + 1) =~= cur.skip(i as int).drop_first());
                    assert(ms0.skip(seen + 1) =~= ms0.skip(seen).drop_first());
                }
                i = i + 1;
                proof {
                    seen = seen + 1;
                }
            } else {
                proof {
                    assert(!pred(ms0[seen]));
                    assert(ms0.take(seen + 1).filter(pred) == ms0.take(seen).filter(pred));
                }
                proof {
                    assert(ms0.skip(seen).len() > 0);
                    assert(seen < ms0.len());
                }
                let _m = self.missions.remove(i);
                proof {
                    assert(self.missions@ =~= cur.remove(i as int));
                    assert(self.missions@.take(i as int) =~= cur.take(i as int));
                    assert(self.missions@.skip(i as int) =~= cur.skip(i as int).drop_first());
                    assert(ms0.skip(seen + 1) =~= ms0.skip(seen).drop_first());
                    assert forall|i1: int, j1: int|
                        0 <= i1 < j1 < self.missions@.len() implies #[trigger] self.missions@[
                        i1
                    ].id@ != #[trigger] self.missions@[j1].id@ by {
                        let oi = if i1 < i as int {
                            i1
                        } else {
                            i1 + 1
                        };
                        let oj = if j1 < i as int {
                            j1
                        } else {
                            j1 + 1
                        };
                        assert(self.missions@[i1] == cur[oi]);
                        assert(self.missions@[j1] == cur[oj]);
                        assert(cur[oi].id@ != cur[oj].id@);
                    }
                    assert forall|i1: int|
                        0 <= i1 < self.missions@.len() implies mission_wf(
                        #[trigger] self.missions@[i1],
                    ) by {
                        let oi = if i1 < i as int {
                            i1
                        } else {
                            i1 + 1
                        };
                        assert(self.missions@[i1] == cur[oi]);
                    }
                    seen = seen + 1;
                }
            }
        }
        proof {
            assert(ms0.take(seen) =~= ms0);
            assert(self.missions@.take(i as int) =~= self.missions@);
        }
        orig - self.missions.len()
    }
}

} // verus!
