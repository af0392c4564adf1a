//! Laws of the registry: what holds across sweeps, changes and reloads.

use vstd::prelude::*;
use crate::config::RepositoryConfigView;
use crate::events::{event_qualifies, EventClass};
use crate::registry::{
    config_paths_unique, due, from_config, has_path, is_due, marked, refreshed, registered, swept,
    unique_paths, with_mark, RepoView,
};

verus! {

/// The registry after changes to `p` seen at each time of `ts`, in order.
pub open spec fn marked_all(s: Seq<RepoView>, p: Seq<char>, ts: Seq<u64>) -> Seq<RepoView>
    decreases ts.len(),
{
    if ts.len() == 0 {
        s
    } else {
        marked(marked_all(s, p, ts.drop_last()), p, ts.last())
    }
}

/// No two dispatches of a list share a path.
pub open spec fn dispatch_paths_unique(d: Seq<(Seq<char>, Seq<char>)>) -> bool {
    forall|a: int, b: int| 0 <= a < d.len() && 0 <= b < d.len() && a != b ==> d[a].0 != d[b].0
}

/// Every dispatch of a sweep comes from an entry that was due.
pub proof fn lemma_due_member(s: Seq<RepoView>, now: u64, j: int)
    requires
        0 <= j < due(s, now).len(),
    ensures
        exists|i: int|
            0 <= i < s.len() && is_due(s[i], now) && due(s, now)[j] == (s[i].path, s[i].commit_msg),
    decreases s.len(),
{
    let rest = due(s.drop_last(), now);
    if is_due(s.last(), now) && j == rest.len() {
        assert(is_due(s[s.len() - 1], now));
    } else {
        lemma_due_member(s.drop_last(), now, j);
        let i = choose|i: int|
            0 <= i < s.drop_last().len() && is_due(s.drop_last()[i], now) && rest[j] == (
                s.drop_last()[i].path,
                s.drop_last()[i].commit_msg,
            );
        assert(s.drop_last()[i] == s[i]);
    }
}

/// Every entry that is due is dispatched by the sweep.
pub proof fn lemma_due_contains(s: Seq<RepoView>, now: u64, i: int)
    requires
        0 <= i < s.len(),
        is_due(s[i], now),
    ensures
        exists|j: int| 0 <= j < due(s, now).len() && due(s, now)[j] == (s[i].path, s[i].commit_msg),
    decreases s.len(),
{
    let rest = due(s.drop_last(), now);
    if i == s.len() - 1 {
        assert(due(s, now)[rest.len() as int] == (s[i].path, s[i].commit_msg));
    } else {
        assert(s.drop_last()[i] == s[i]);
        lemma_due_contains(s.drop_last(), now, i);
        let j = choose|j: int| 0 <= j < rest.len() && rest[j] == (s[i].path, s[i].commit_msg);
        assert(due(s, now)[j] == rest[j]);
    }
}

/// A sweep hands out each repository at most once.
pub proof fn lemma_due_unique(s: Seq<RepoView>, now: u64)
    requires
        unique_paths(s),
    ensures
        dispatch_paths_unique(due(s, now)),
    decreases s.len(),
{
    if s.len() > 0 {
        let t = s.drop_last();
        assert(unique_paths(t)) by {
            assert forall|a: int, b: int| 0 <= a < t.len() && 0 <= b < t.len() && a != b implies #[trigger] t[a].path
                != #[trigger] t[b].path by {
                assert(t[a] == s[a] && t[b] == s[b]);
            }
        }
        lemma_due_unique(t, now);
        let rest = due(t, now);
        let d = due(s, now);
        if is_due(s.last(), now) {
            assert forall|a: int, b: int| 0 <= a < d.len() && 0 <= b < d.len() && a != b implies #[trigger] d[a].0
                != #[trigger] d[b].0 by {
                if a < rest.len() && b < rest.len() {
                    assert(d[a] == rest[a] && d[b] == rest[b]);
                } else {
                    let k = if a < rest.len() { a } else { b };
                    assert(d[k] == rest[k]);
                    lemma_due_member(t, now, k);
                    let i = choose|i: int|
                        0 <= i < t.len() && is_due(t[i], now) && rest[k] == (t[i].path, t[i].commit_msg);
                    assert(t[i] == s[i]);
                    assert(s[i].path != s[s.len() - 1].path);
                }
            }
        }
    }
}

/// Debounce refresh: after a run of changes to a repository, no sweep hands
/// it out while its quiet period after the last change has not elapsed; it
/// stays dirty, so a later sweep still will.
pub proof fn lemma_refresh_defers(s: Seq<RepoView>, k: int, ts: Seq<u64>, now: u64)
    requires
        unique_paths(s),
        0 <= k < s.len(),
        ts.len() > 0,
        (now as int) < ts.last() as int + s[k].debounce_time as int,
    ensures
        marked_all(s, s[k].path, ts)[k].dirty_since is Some,
        !is_due(marked_all(s, s[k].path, ts)[k], now),
        swept(marked_all(s, s[k].path, ts), now)[k] == marked_all(s, s[k].path, ts)[k],
        forall|j: int|
            0 <= j < due(marked_all(s, s[k].path, ts), now).len() ==> #[trigger] due(
                marked_all(s, s[k].path, ts),
                now,
            )[j].0 != s[k].path,
{
    let p = s[k].path;
    lemma_marked_all_shape(s, p, ts);
    let m = marked_all(s, p, ts);
    let v = marked(marked_all(s, p, ts.drop_last()), p, ts.last())[k];
    assert(m[k] == v);
    match v.dirty_since {
        Some(t) => assert(t >= ts.last()),
        None => {},
    }
    assert forall|j: int| 0 <= j < due(m, now).len() implies #[trigger] due(m, now)[j].0 != p by {
        lemma_due_member(m, now, j);
        let i = choose|i: int| 0 <= i < m.len() && is_due(m[i], now) && due(m, now)[j] == (m[i].path, m[i].commit_msg);
        if m[i].path == p {
            assert(s[i].path == p);
            assert(i == k);
        }
    }
}

/// Debounce refresh, the other half: once the quiet period after the last of
/// a run of changes (seen in time order, none before the repository's own
/// mark) has elapsed, the sweep hands the repository out, exactly once.
pub proof fn lemma_quiet_then_dispatched_once(s: Seq<RepoView>, k: int, ts: Seq<u64>, now: u64)
    requires
        unique_paths(s),
        0 <= k < s.len(),
        ts.len() > 0,
        forall|a: int, b: int| 0 <= a <= b < ts.len() ==> #[trigger] ts[a] <= #[trigger] ts[b],
        match s[k].dirty_since {
            None => true,
            Some(t) => t <= ts[0],
        },
        now as int >= ts.last() as int + s[k].debounce_time as int,
    ensures
        marked_all(s, s[k].path, ts)[k].dirty_since == Some(ts.last()),
        is_due(marked_all(s, s[k].path, ts)[k], now),
        swept(marked_all(s, s[k].path, ts), now)[k].dirty_since is None,
        exists|j: int|
            0 <= j < due(marked_all(s, s[k].path, ts), now).len() && #[trigger] due(
                marked_all(s, s[k].path, ts),
                now,
            )[j].0 == s[k].path,
        dispatch_paths_unique(due(marked_all(s, s[k].path, ts), now)),
{
    let p = s[k].path;
    lemma_marked_all_last(s, k, ts);
    lemma_marked_all_shape(s, p, ts);
    let m = marked_all(s, p, ts);
    assert(unique_paths(m)) by {
        assert forall|a: int, b: int| 0 <= a < m.len() && 0 <= b < m.len() && a != b implies #[trigger] m[a].path
            != #[trigger] m[b].path by {
            assert(m[a].path == s[a].path && m[b].path == s[b].path);
        }
    }
    lemma_due_contains(m, now, k);
    let j = choose|j: int| 0 <= j < due(m, now).len() && due(m, now)[j] == (m[k].path, m[k].commit_msg);
    assert(due(m, now)[j].0 == p);
    lemma_due_unique(m, now);
}

/// In-order changes leave the mark at the last of them.
proof fn lemma_marked_all_last(s: Seq<RepoView>, k: int, ts: Seq<u64>)
    requires
        0 <= k < s.len(),
        ts.len() > 0,
        forall|a: int, b: int| 0 <= a <= b < ts.len() ==> #[trigger] ts[a] <= #[trigger] ts[b],
        match s[k].dirty_since {
            None => true,
            Some(t) => t <= ts[0],
        },
    ensures
        marked_all(s, s[k].path, ts)[k].dirty_since == Some(ts.last()),
    decreases ts.len(),
{
    let p = s[k].path;
    lemma_marked_all_shape(s, p, ts.drop_last());
    if ts.len() > 1 {
        let t = ts.drop_last();
        assert forall|a: int, b: int| 0 <= a <= b < t.len() implies #[trigger] t[a] <= #[trigger] t[b] by {
            assert(t[a] == ts[a] && t[b] == ts[b]);
        }
        lemma_marked_all_last(s, k, t);
        assert(ts[ts.len() - 2] <= ts[ts.len() - 1]);
    }
}

/// Changes to `p` keep the length and every path, touch no other entry, and
/// leave the entries of `p` dirty.
pub proof fn lemma_marked_all_shape(s: Seq<RepoView>, p: Seq<char>, ts: Seq<u64>)
    ensures
        marked_all(s, p, ts).len() == s.len(),
        forall|i: int| 0 <= i < s.len() ==> #[trigger] marked_all(s, p, ts)[i].path == s[i].path,
        forall|i: int|
            0 <= i < s.len() ==> (#[trigger] marked_all(s, p, ts)[i]).debounce_time == s[i].debounce_time,
    decreases ts.len(),
{
    if ts.len() > 0 {
        lemma_marked_all_shape(s, p, ts.drop_last());
    }
}

/// No spurious commits: a clean repository is not handed out by a sweep and
/// stays clean.
pub proof fn lemma_clean_not_dispatched(s: Seq<RepoView>, k: int, now: u64)
    requires
        unique_paths(s),
        0 <= k < s.len(),
        s[k].dirty_since is None,
    ensures
        swept(s, now)[k] == s[k],
        forall|j: int| 0 <= j < due(s, now).len() ==> #[trigger] due(s, now)[j].0 != s[k].path,
{
    assert forall|j: int| 0 <= j < due(s, now).len() implies #[trigger] due(s, now)[j].0 != s[k].path by {
        lemma_due_member(s, now, j);
        let i = choose|i: int| 0 <= i < s.len() && is_due(s[i], now) && due(s, now)[j] == (s[i].path, s[i].commit_msg);
        assert(i != k);
    }
}

/// A sweep hands each repository out at most once, and what it handed out is
/// clean afterwards: a second sweep, with no change in between, hands none of
/// it out again.
pub proof fn lemma_take_due_clears(s: Seq<RepoView>, now: u64, later: u64)
    requires
        unique_paths(s),
    ensures
        dispatch_paths_unique(due(s, now)),
        forall|a: int, b: int|
            0 <= a < due(s, now).len() && 0 <= b < due(swept(s, now), later).len() ==> #[trigger] due(s, now)[a].0
                != #[trigger] due(swept(s, now), later)[b].0,
{
    lemma_due_unique(s, now);
    let w = swept(s, now);
    assert forall|a: int, b: int| 0 <= a < due(s, now).len() && 0 <= b < due(w, later).len() implies #[trigger] due(
        s,
        now,
    )[a].0 != #[trigger] due(w, later)[b].0 by {
        lemma_due_member(s, now, a);
        let i = choose|i: int| 0 <= i < s.len() && is_due(s[i], now) && due(s, now)[a] == (s[i].path, s[i].commit_msg);
        lemma_due_member(w, later, b);
        let j = choose|j: int| 0 <= j < w.len() && is_due(w[j], later) && due(w, later)[b] == (w[j].path, w[j].commit_msg);
        assert(j != i);
        assert(w[j].path == s[j].path);
    }
}

/// Reload: the fresh registry holds exactly the configured repositories, each
/// dirty from the reload whatever its state was before, and a change to a
/// repository that is no longer configured affects nothing.
pub proof fn lemma_reload_replaces(c: Seq<RepositoryConfigView>, now: u64, gone: Seq<char>, at: u64)
    requires
        config_paths_unique(c),
        forall|i: int| 0 <= i < c.len() ==> #[trigger] c[i].path != gone,
    ensures
        unique_paths(from_config(c, now)),
        from_config(c, now).map_values(|v: RepoView| v.path) == c.map_values(|r: RepositoryConfigView| r.path),
        forall|i: int| 0 <= i < c.len() ==> (#[trigger] from_config(c, now)[i]).dirty_since == Some(now),
        !has_path(from_config(c, now), gone),
        marked(from_config(c, now), gone, at) == from_config(c, now),
{
    let f = from_config(c, now);
    assert(f.map_values(|v: RepoView| v.path) =~= c.map_values(|r: RepositoryConfigView| r.path));
    assert forall|i: int| 0 <= i < c.len() implies (#[trigger] f[i]).dirty_since == Some(now) by {
        assert(f[i] == registered(c[i].path, c[i].debounce_time, c[i].commit_msg, now));
    }
    assert(marked(f, gone, at) =~= f);
}

/// One step of a run on a repository: a filesystem event (its kind, what the
/// ignore rules said of each path it touches, and when it was seen), or a
/// sweep.
pub enum Step {
    Event { kind: EventClass, ignored: Seq<bool>, at: u64 },
    Sweep { now: u64 },
}

/// When a step happens.
pub open spec fn step_time(st: Step) -> u64 {
    match st {
        Step::Event { at, .. } => at,
        Step::Sweep { now } => now,
    }
}

/// The step is an event that qualifies.
pub open spec fn is_qualifying(st: Step) -> bool {
    match st {
        Step::Event { kind, ignored, .. } => event_qualifies(kind, ignored),
        Step::Sweep { .. } => false,
    }
}

/// The registry after one step on `p`.
pub open spec fn apply_step(r: Seq<RepoView>, p: Seq<char>, st: Step) -> Seq<RepoView> {
    match st {
        Step::Event { kind, ignored, at } => if event_qualifies(kind, ignored) {
            marked(r, p, at)
        } else {
            r
        },
        Step::Sweep { now } => swept(r, now),
    }
}

/// The registry after the steps of a run on `p`, in order.
pub open spec fn run(r: Seq<RepoView>, p: Seq<char>, steps: Seq<Step>) -> Seq<RepoView>
    decreases steps.len(),
{
    if steps.len() == 0 {
        r
    } else {
        apply_step(run(r, p, steps.drop_last()), p, steps.last())
    }
}

/// A sweep at `now` hands `p` out of the registry `r`.
pub open spec fn dispatched(r: Seq<RepoView>, p: Seq<char>, now: u64) -> bool {
    exists|j: int| 0 <= j < due(r, now).len() && #[trigger] due(r, now)[j].0 == p
}

/// The step is a sweep that hands `p` out of the registry `r`.
pub open spec fn hands_out(r: Seq<RepoView>, p: Seq<char>, st: Step) -> bool {
    match st {
        Step::Sweep { now } => dispatched(r, p, now),
        Step::Event { .. } => false,
    }
}

/// How many sweeps of a run hand `p` out.
pub open spec fn dispatch_count(r: Seq<RepoView>, p: Seq<char>, steps: Seq<Step>) -> nat
    decreases steps.len(),
{
    if steps.len() == 0 {
        0
    } else {
        dispatch_count(r, p, steps.drop_last()) + if hands_out(run(r, p, steps.drop_last()), p, steps.last()) {
            1nat
        } else {
            0nat
        }
    }
}

/// When the last qualifying event of a run was seen.
pub open spec fn last_change(steps: Seq<Step>) -> Option<u64>
    decreases steps.len(),
{
    if steps.len() == 0 {
        None
    } else if is_qualifying(steps.last()) {
        Some(step_time(steps.last()))
    } else {
        last_change(steps.drop_last())
    }
}

/// The steps of a run come in time order.
pub open spec fn times_ordered(steps: Seq<Step>) -> bool {
    forall|a: int, b: int| 0 <= a <= b < steps.len() ==> step_time(#[trigger] steps[a]) <= step_time(#[trigger] steps[b])
}

/// Each qualifying event of a run comes less than `w` after the one before.
pub open spec fn one_burst(steps: Seq<Step>, w: u64) -> bool {
    forall|j: int|
        0 <= j < steps.len() && is_qualifying(#[trigger] steps[j]) ==> match last_change(steps.take(j)) {
            None => true,
            Some(t) => (step_time(steps[j]) as int) < t as int + w as int,
        }
}

/// A sweep hands out a repository exactly when its entry is due.
proof fn lemma_hands_out_iff_due(r: Seq<RepoView>, k: int, now: u64)
    requires
        unique_paths(r),
        0 <= k < r.len(),
    ensures
        hands_out(r, r[k].path, Step::Sweep { now }) <==> is_due(r[k], now),
{
    if is_due(r[k], now) {
        lemma_due_contains(r, now, k);
        let j = choose|j: int| 0 <= j < due(r, now).len() && due(r, now)[j] == (r[k].path, r[k].commit_msg);
        assert(due(r, now)[j].0 == r[k].path);
        assert(dispatched(r, r[k].path, now));
    }
    if dispatched(r, r[k].path, now) {
        let j = choose|j: int| 0 <= j < due(r, now).len() && #[trigger] due(r, now)[j].0 == r[k].path;
        lemma_due_member(r, now, j);
        let i = choose|i: int| 0 <= i < r.len() && is_due(r[i], now) && due(r, now)[j] == (r[i].path, r[i].commit_msg);
        assert(i == k);
        assert(is_due(r[k], now));
    }
}

/// A run keeps the length, every path and every quiet period.
pub proof fn lemma_run_shape(s: Seq<RepoView>, p: Seq<char>, steps: Seq<Step>)
    requires
        unique_paths(s),
    ensures
        run(s, p, steps).len() == s.len(),
        forall|i: int| 0 <= i < s.len() ==> #[trigger] run(s, p, steps)[i].path == s[i].path,
        forall|i: int| 0 <= i < s.len() ==> (#[trigger] run(s, p, steps)[i]).debounce_time == s[i].debounce_time,
        unique_paths(run(s, p, steps)),
    decreases steps.len(),
{
    if steps.len() > 0 {
        lemma_run_shape(s, p, steps.drop_last());
        let r = run(s, p, steps);
        assert forall|a: int, b: int| 0 <= a < r.len() && 0 <= b < r.len() && a != b implies #[trigger] r[a].path
            != #[trigger] r[b].path by {
            assert(r[a].path == s[a].path && r[b].path == s[b].path);
        }
    }
}

/// A step seen from a longer run is the same step, after the same prefix.
proof fn lemma_prefix_step(steps: Seq<Step>, j: int)
    requires
        0 <= j < steps.len() - 1,
    ensures
        steps.drop_last().take(j) == steps.take(j),
        steps.drop_last()[j] == steps[j],
{
    assert(steps.drop_last().take(j) =~= steps.take(j));
}

/// No spurious commits, with events and sweeps interleaved: a repository
/// that is clean and sees no qualifying event (each is of an excluded kind or
/// touches only ignored paths) is handed out by no sweep and stays clean.
pub proof fn lemma_no_spurious_commit(s: Seq<RepoView>, k: int, steps: Seq<Step>)
    requires
        unique_paths(s),
        0 <= k < s.len(),
        s[k].dirty_since is None,
        forall|j: int| 0 <= j < steps.len() ==> !is_qualifying(#[trigger] steps[j]),
    ensures
        run(s, s[k].path, steps)[k].dirty_since is None,
        dispatch_count(s, s[k].path, steps) == 0,
    decreases steps.len(),
{
    let p = s[k].path;
    lemma_run_shape(s, p, steps);
    if steps.len() > 0 {
        let t = steps.drop_last();
        assert forall|j: int| 0 <= j < t.len() implies !is_qualifying(#[trigger] t[j]) by {
            assert(t[j] == steps[j]);
        }
        lemma_no_spurious_commit(s, k, t);
        lemma_run_shape(s, p, t);
        let r = run(s, p, t);
        assert(!is_qualifying(steps[steps.len() - 1]));
        match steps.last() {
            Step::Event { .. } => {},
            Step::Sweep { now } => {
                lemma_hands_out_iff_due(r, k, now);
            },
        }
    }
}

/// The state of a repository through a run of one burst, started clean:
/// dirty since the last qualifying event and not yet handed out, or handed
/// out once, clean, and at least a quiet period after that event; any sweep
/// that hands it out comes a quiet period after the run's last qualifying
/// event.
pub proof fn lemma_burst_state(s: Seq<RepoView>, k: int, steps: Seq<Step>)
    requires
        unique_paths(s),
        0 <= k < s.len(),
        s[k].dirty_since is None,
        times_ordered(steps),
        one_burst(steps, s[k].debounce_time),
    ensures
        last_change(steps) is None ==> run(s, s[k].path, steps)[k].dirty_since is None && dispatch_count(
            s,
            s[k].path,
            steps,
        ) == 0,
        last_change(steps) is Some ==> steps.len() > 0 && last_change(steps)->0 <= step_time(steps.last()),
        last_change(steps) is Some ==> (run(s, s[k].path, steps)[k].dirty_since == last_change(steps)
            && dispatch_count(s, s[k].path, steps) == 0) || (run(s, s[k].path, steps)[k].dirty_since is None
            && dispatch_count(s, s[k].path, steps) == 1 && step_time(steps.last()) as int >= last_change(
            steps,
        )->0 as int + s[k].debounce_time as int),
        forall|j: int|
            0 <= j < steps.len() && #[trigger] hands_out(run(s, s[k].path, steps.take(j)), s[k].path, steps[j])
                ==> dispatch_count(s, s[k].path, steps) == 1 && last_change(steps) is Some && step_time(steps[j]) as int
                >= last_change(steps)->0 as int + s[k].debounce_time as int,
    decreases steps.len(),
{
    let p = s[k].path;
    let w = s[k].debounce_time;
    lemma_run_shape(s, p, steps);
    if steps.len() > 0 {
        let t = steps.drop_last();
        let n = steps.len() - 1;
        assert(times_ordered(t)) by {
            assert forall|a: int, b: int| 0 <= a <= b < t.len() implies step_time(#[trigger] t[a]) <= step_time(
                #[trigger] t[b],
            ) by {
                assert(t[a] == steps[a] && t[b] == steps[b]);
            }
        }
        assert(one_burst(t, w)) by {
            assert forall|j: int| 0 <= j < t.len() && is_qualifying(#[trigger] t[j]) implies match last_change(
                t.take(j),
            ) {
                None => true,
                Some(x) => (step_time(t[j]) as int) < x as int + w as int,
            } by {
                lemma_prefix_step(steps, j);
            }
        }
        lemma_burst_state(s, k, t);
        lemma_run_shape(s, p, t);
        let r = run(s, p, t);
        assert(steps.take(n) =~= t);
        assert(r[k].path == p);
        if t.len() > 0 {
            assert(step_time(steps[n - 1]) <= step_time(steps[n]));
        }
        let last = steps.last();
        match last {
            Step::Event { kind, ignored, at } => {
                if event_qualifies(kind, ignored) {
                    assert(is_qualifying(steps[n]));
                    assert(marked(r, p, at)[k] == with_mark(r[k], refreshed(r[k].dirty_since, at)));
                }
            },
            Step::Sweep { now } => {
                lemma_hands_out_iff_due(r, k, now);
                assert(swept(r, now)[k] == if is_due(r[k], now) { with_mark(r[k], None) } else { r[k] });
            },
        }
        assert forall|j: int|
            0 <= j < steps.len() && #[trigger] hands_out(run(s, p, steps.take(j)), p, steps[j]) implies dispatch_count(
            s,
            p,
            steps,
        ) == 1 && last_change(steps) is Some && step_time(steps[j]) as int >= last_change(steps)->0 as int + w as int by {
            if j < n {
                lemma_prefix_step(steps, j);
                assert(hands_out(run(s, p, t.take(j)), p, t[j]));
                assert(step_time(steps[j]) <= step_time(steps[n]));
            }
        }
    }
}

/// With no qualifying event after position `j`, the run's last qualifying
/// event is that of its first `j + 1` steps.
proof fn lemma_last_change_prefix(steps: Seq<Step>, j: int)
    requires
        0 <= j < steps.len(),
        forall|i: int| j < i < steps.len() ==> !is_qualifying(#[trigger] steps[i]),
    ensures
        last_change(steps) == last_change(steps.take(j + 1)),
    decreases steps.len(),
{
    if steps.len() > j + 1 {
        let t = steps.drop_last();
        assert forall|i: int| j < i < t.len() implies !is_qualifying(#[trigger] t[i]) by {
            assert(t[i] == steps[i]);
        }
        lemma_last_change_prefix(t, j);
        assert(t.take(j + 1) =~= steps.take(j + 1));
        assert(!is_qualifying(steps[steps.len() - 1]));
    } else {
        assert(steps.take(j + 1) =~= steps);
    }
}

/// A longer run hands a repository out at least as often.
proof fn lemma_count_grows(s: Seq<RepoView>, p: Seq<char>, steps: Seq<Step>, j: int)
    requires
        0 <= j <= steps.len(),
    ensures
        dispatch_count(s, p, steps.take(j)) <= dispatch_count(s, p, steps),
    decreases steps.len(),
{
    if j < steps.len() {
        let t = steps.drop_last();
        assert(t.take(j) =~= steps.take(j));
        lemma_count_grows(s, p, t, j);
    } else {
        assert(steps.take(j) =~= steps);
    }
}

/// Debounce refresh, with events and sweeps interleaved: a repository that
/// starts clean and sees one burst of qualifying events (each less than its
/// quiet period after the one before) is handed out at most once, and only
/// by a sweep that comes a quiet period after the last of them; a sweep that
/// comes that late, after the last of them, finds it handed out exactly once.
pub proof fn lemma_debounce_refresh(s: Seq<RepoView>, k: int, steps: Seq<Step>, j: int)
    requires
        unique_paths(s),
        0 <= k < s.len(),
        s[k].dirty_since is None,
        times_ordered(steps),
        one_burst(steps, s[k].debounce_time),
    ensures
        dispatch_count(s, s[k].path, steps) <= 1,
        0 <= j < steps.len() && hands_out(run(s, s[k].path, steps.take(j)), s[k].path, steps[j]) ==> last_change(
            steps,
        ) is Some && step_time(steps[j]) as int >= last_change(steps)->0 as int + s[k].debounce_time as int,
        0 <= j < steps.len() && steps[j] is Sweep && last_change(steps) is Some && step_time(steps[j]) as int
            >= last_change(steps)->0 as int + s[k].debounce_time as int && (forall|i: int|
            j < i < steps.len() ==> !is_qualifying(#[trigger] steps[i])) ==> dispatch_count(s, s[k].path, steps)
            == 1,
{
    let p = s[k].path;
    let w = s[k].debounce_time;
    lemma_burst_state(s, k, steps);
    if 0 <= j < steps.len() && steps[j] is Sweep && last_change(steps) is Some && step_time(steps[j]) as int
        >= last_change(steps)->0 as int + w as int && (forall|i: int|
        j < i < steps.len() ==> !is_qualifying(#[trigger] steps[i])) {
        lemma_last_change_prefix(steps, j);
        let pre = steps.take(j);
        assert(steps.take(j + 1).drop_last() =~= pre);
        assert(steps.take(j + 1).last() == steps[j]);
        assert(last_change(pre) == last_change(steps));
        assert(times_ordered(pre)) by {
            assert forall|a: int, b: int| 0 <= a <= b < pre.len() implies step_time(#[trigger] pre[a]) <= step_time(
                #[trigger] pre[b],
            ) by {
                assert(pre[a] == steps[a] && pre[b] == steps[b]);
            }
        }
        assert(one_burst(pre, w)) by {
            assert forall|i: int| 0 <= i < pre.len() && is_qualifying(#[trigger] pre[i]) implies match last_change(
                pre.take(i),
            ) {
                None => true,
                Some(x) => (step_time(pre[i]) as int) < x as int + w as int,
            } by {
                assert(pre.take(i) =~= steps.take(i));
                assert(pre[i] == steps[i]);
            }
        }
        lemma_burst_state(s, k, pre);
        lemma_run_shape(s, p, pre);
        lemma_count_grows(s, p, steps, j);
        let r = run(s, p, pre);
        match steps[j] {
            Step::Sweep { now } => {
                lemma_hands_out_iff_due(r, k, now);
            },
            Step::Event { .. } => {},
        }
    }
}

} // verus!
