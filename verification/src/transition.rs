//! Animated-lifecycle state machine.
//!
//! Each physical node that is entering, changing or leaving carries a
//! `TransitionRecord`.  Once per external time step the registry is ticked:
//! every live record is sampled at the current time and yields a transform
//! command, and a record whose animation has completed is dropped — for the
//! `Removed` phase this is the moment the deferred physical destruction of
//! the node is issued.
//!
//! Time is in abstract integer units (the caller picks the resolution, for
//! example milliseconds).  Interpolation weights are in thousandths:
//! `PROGRESS_ONE` denotes a finished animation.

use vstd::prelude::*;
use vstd::arithmetic::div_mod::lemma_div_is_ordered;
use vstd::arithmetic::div_mod::lemma_div_multiples_vanish;
use vstd::arithmetic::div_mod::lemma_div_pos_is_pos;
use vstd::arithmetic::mul::lemma_mul_inequality;

verus! {

/// Animation progress is measured in thousandths of the full duration.
pub const PROGRESS_ONE: u64 = 1000;

/// Animated phase of one backend node.
#[derive(Clone, Copy, PartialEq, Eq, Structural, Debug)]
pub enum Phase {
    /// The node was newly created.  `entry` is false when an ancestor was
    /// created in the same pass: only the outermost new ancestor animates.
    Inserted { entry: bool },
    /// The node was kept but its layout jumped; its position is smoothed
    /// from the old center `(from_x, from_y)` toward the live position.
    Updated { from_x: i64, from_y: i64 },
    /// The node was logically removed; it plays an exit animation and is
    /// physically destroyed when that completes.
    Removed,
}

/// Per-node animation state, attached when a lifecycle event happens.
#[derive(Clone, Copy, PartialEq, Eq, Structural, Debug)]
pub struct TransitionRecord {
    pub phase: Phase,
    /// Time at which this phase was assigned.
    pub start: u64,
    /// Animation length, in the same unit as `start`.
    pub duration: u64,
    /// Offset direction of the entry and exit poses.
    pub dir_x: i64,
    pub dir_y: i64,
}

/// What one sampled record asks the backend to do.
#[derive(Clone, Copy, PartialEq, Eq, Structural, Debug)]
pub enum TickAction {
    /// Apply `off` on top of the layout pose and a uniform scale
    /// in thousandths (`scale_pm == PROGRESS_ONE` means unscaled).
    SetTransform { off_x: i64, off_y: i64, scale_pm: u64 },
    /// Move the node to this absolute position.
    SetPosition { x: i64, y: i64 },
    /// Physically destroy the node and its whole subtree.
    Destroy,
    /// Nothing to apply this tick.
    Hold,
}

/// Result of sampling one record: the action, and whether the record stays.
#[derive(Clone, Copy, PartialEq, Eq, Structural, Debug)]
pub struct TickStep {
    pub action: TickAction,
    pub keep: bool,
}

/// A sampled action bound to the node it applies to.
#[derive(Clone, Copy, PartialEq, Eq, Structural, Debug)]
pub struct TickCommand {
    pub handle: u64,
    pub action: TickAction,
}

/// Progress of an animation at time `now`, clamped to `[0, PROGRESS_ONE]`.
/// A zero duration is complete at once.
pub open spec fn spec_progress(now: u64, start: u64, duration: u64) -> int {
    if now <= start {
        0
    } else if duration == 0 {
        1000
    } else if now - start >= duration {
        1000
    } else if (now - start) * 1000 / (duration as int) >= 1000 {
        1000
    } else {
        (now - start) * 1000 / (duration as int)
    }
}

/// `v` scaled by `pm` thousandths, rounded toward zero.
pub open spec fn spec_scaled(v: int, pm: int) -> int {
    if v >= 0 {
        v * pm / 1000
    } else {
        -((-v) * pm / 1000)
    }
}

/// Linear interpolation from `from` toward `to` by `pm` thousandths.
pub open spec fn spec_lerp(from: int, to: int, pm: int) -> int {
    from + spec_scaled(to - from, pm)
}

/// For weights up to one, scaling never grows a value past itself.
proof fn lemma_scaled_bounds(v: int, pm: int)
    requires
        0 <= pm <= 1000,
    ensures
        v >= 0 ==> 0 <= spec_scaled(v, pm) <= v,
        v < 0 ==> v <= spec_scaled(v, pm) <= 0,
{
    let m = if v >= 0 { v } else { -v };
    lemma_mul_inequality(pm, 1000, m);
    assert(pm * m == m * pm) by (nonlinear_arith);
    assert(1000 * m == m * 1000) by (nonlinear_arith);
    lemma_div_is_ordered(m * pm, m * 1000, 1000);
    lemma_div_multiples_vanish(m, 1000);
    assert(1000 * m == m * 1000) by (nonlinear_arith);
    lemma_div_pos_is_pos(m * pm, 1000);
    assert(m * pm >= 0) by (nonlinear_arith)
        requires m >= 0 && pm >= 0;
}

pub fn progress(now: u64, start: u64, duration: u64) -> (r: u64)
    ensures
        r == spec_progress(now, start, duration),
        r <= 1000,
{
    if now <= start {
        0
    } else if duration == 0 {
        1000
    } else {
        let t: u64 = now - start;
        if t >= duration {
            1000
        } else {
            let q: u128 = (t as u128) * 1000 / (duration as u128);
            if q >= 1000 {
                1000
            } else {
                q as u64
            }
        }
    }
}

/// `v` scaled by `pm` thousandths, rounded toward zero.
pub fn scaled(v: i64, pm: u64) -> (r: i64)
    requires
        pm <= 1000,
    ensures
        r == spec_scaled(v as int, pm as int),
        v >= 0 ==> 0 <= r <= v,
        v < 0 ==> v <= r <= 0,
{
    proof {
        lemma_scaled_bounds(v as int, pm as int);
    }
    if v >= 0 {
        let q: u128 = (v as u128) * (pm as u128) / 1000;
        q as i64
    } else {
        let m: u128 = (-(v as i128)) as u128;
        let q: u128 = m * (pm as u128) / 1000;
        (-(q as i128)) as i64
    }
}

/// Linear interpolation from `from` toward `to` by `pm` thousandths.
pub fn lerp(from: i64, to: i64, pm: u64) -> (r: i64)
    requires
        pm <= 1000,
    ensures
        r == spec_lerp(from as int, to as int, pm as int),
        from <= to ==> from <= r <= to,
        to < from ==> to <= r <= from,
{
    proof {
        lemma_scaled_bounds(to - from, pm as int);
    }
    let d: i128 = (to as i128) - (from as i128);
    if d >= 0 {
        let q: u128 = (d as u128) * (pm as u128) / 1000;
        ((from as i128) + (q as i128)) as i64
    } else {
        let m: u128 = (-d) as u128;
        let q: u128 = m * (pm as u128) / 1000;
        ((from as i128) - (q as i128)) as i64
    }
}

/// Sampling one record at time `now`.  `live` is the node's current layout
/// position, if the backend still knows it.
pub open spec fn spec_tick(rec: TransitionRecord, now: u64, live: Option<(i64, i64)>) -> TickStep {
    let p = spec_progress(now, rec.start, rec.duration);
    match rec.phase {
        Phase::Inserted { entry } => {
            if p < 1000 && entry {
                TickStep {
                    action: TickAction::SetTransform {
                        off_x: spec_scaled(rec.dir_x as int, 1000 - p) as i64,
                        off_y: spec_scaled(rec.dir_y as int, 1000 - p) as i64,
                        scale_pm: p as u64,
                    },
                    keep: true,
                }
            } else {
                // settled: either the animation completed or it was
                // suppressed because an ancestor animates for the subtree
                TickStep { action: TickAction::Hold, keep: false }
            }
        },
        Phase::Updated { from_x, from_y } => {
            if p >= 1000 {
                TickStep { action: TickAction::Hold, keep: false }
            } else {
                match live {
                    Option::None => {
                        // the backend no longer knows the node: skip this
                        // tick rather than fail
                        TickStep { action: TickAction::Hold, keep: true }
                    },
                    Option::Some((lx, ly)) => TickStep {
                        action: TickAction::SetPosition {
                            x: spec_lerp(from_x as int, lx as int, p) as i64,
                            y: spec_lerp(from_y as int, ly as int, p) as i64,
                        },
                        keep: true,
                    },
                }
            }
        },
        Phase::Removed => {
            if p < 1000 {
                TickStep {
                    action: TickAction::SetTransform {
                        off_x: spec_scaled(rec.dir_x as int, p) as i64,
                        off_y: spec_scaled(rec.dir_y as int, p) as i64,
                        scale_pm: (1000 - p) as u64,
                    },
                    keep: true,
                }
            } else {
                // the exit animation completed: fulfil the logical removal
                TickStep { action: TickAction::Destroy, keep: false }
            }
        },
    }
}

/// Sample one record at time `now`.
pub fn tick_record(rec: &TransitionRecord, now: u64, live: Option<(i64, i64)>) -> (r: TickStep)
    ensures
        r == spec_tick(*rec, now, live),
{
    let p: u64 = progress(now, rec.start, rec.duration);
    match rec.phase {
        Phase::Inserted { entry } => {
            if p < 1000 && entry {
                TickStep {
                    action: TickAction::SetTransform {
                        off_x: scaled(rec.dir_x, 1000 - p),
                        off_y: scaled(rec.dir_y, 1000 - p),
                        scale_pm: p,
                    },
                    keep: true,
                }
            } else {
                TickStep { action: TickAction::Hold, keep: false }
            }
        },
        Phase::Updated { from_x, from_y } => {
            if p >= 1000 {
                TickStep { action: TickAction::Hold, keep: false }
            } else {
                match live {
                    Option::None => TickStep { action: TickAction::Hold, keep: true },
                    Option::Some((lx, ly)) => TickStep {
                        action: TickAction::SetPosition {
                            x: lerp(from_x, lx, p),
                            y: lerp(from_y, ly, p),
                        },
                        keep: true,
                    },
                }
            }
        },
        Phase::Removed => {
            if p < 1000 {
                TickStep {
                    action: TickAction::SetTransform {
                        off_x: scaled(rec.dir_x, p),
                        off_y: scaled(rec.dir_y, p),
                        scale_pm: 1000 - p,
                    },
                    keep: true,
                }
            } else {
                TickStep { action: TickAction::Destroy, keep: false }
            }
        },
    }
}

/// Transition completion for a removed node: halfway through the exit
/// animation the node is still alive and drawn at a scale strictly between
/// zero and one; from the full duration onward a single sample issues the
/// physical destroy and drops the record, so no later tick touches it.
pub proof fn lemma_removed_transition_completion(
    rec: TransitionRecord,
    live: Option<(i64, i64)>,
    now: u64,
)
    requires
        rec.phase == Phase::Removed,
        1 <= rec.duration,
        rec.start + rec.duration <= u64::MAX,
    ensures
        rec.duration >= 2 ==> ({
            let mid = spec_tick(rec, (rec.start + rec.duration / 2) as u64, live);
            &&& mid.keep
            &&& match mid.action {
                TickAction::SetTransform { scale_pm, .. } => 0 < scale_pm < 1000,
                _ => false,
            }
        }),
        rec.start + rec.duration <= now ==> spec_tick(rec, now, live) == (TickStep {
            action: TickAction::Destroy,
            keep: false,
        }),
{
    let d = rec.duration as int;
    if rec.duration >= 2 {
        let k = d / 2;
        let x = k * 1000;
        assert(2 * k >= d - 1 && k >= 1 && k < d);
        assert(x >= 500 * (d - 1)) by {
            assert(k * 1000 == 500 * (2 * k)) by (nonlinear_arith);
            lemma_mul_inequality(d - 1, 2 * k, 500);
            assert(500 * (2 * k) == (2 * k) * 500) by (nonlinear_arith);
            assert(500 * (d - 1) == (d - 1) * 500) by (nonlinear_arith);
        }
        assert(x >= d);
        assert(x / d >= 1) by {
            lemma_div_multiples_vanish(1, d);
            lemma_div_is_ordered(d * 1, x, d);
        }
        assert(x / d < 1000) by {
            assert(x <= (d - 1) * 1000) by {
                lemma_mul_inequality(k, d - 1, 1000);
            }
            assert(x < 1000 * d);
            if x / d >= 1000 {
                vstd::arithmetic::div_mod::lemma_fundamental_div_mod(x, d);
                vstd::arithmetic::div_mod::lemma_mod_bound(x, d);
                lemma_mul_inequality(1000, x / d, d);
                assert(1000 * d <= (x / d) * d);
                assert(d * (x / d) == (x / d) * d) by (nonlinear_arith);
            }
        }
        let mid_now = (rec.start + rec.duration / 2) as u64;
        assert(mid_now - rec.start == k);
        assert(spec_progress(mid_now, rec.start, rec.duration) == x / d);
    }
}

/// First live layout position recorded for `h`, if any.
pub open spec fn spec_lookup(layouts: Seq<(u64, i64, i64)>, h: u64) -> Option<(i64, i64)>
    decreases layouts.len(),
{
    if layouts.len() == 0 {
        Option::None
    } else if layouts[0].0 == h {
        Option::Some((layouts[0].1, layouts[0].2))
    } else {
        spec_lookup(layouts.drop_first(), h)
    }
}

/// The commands one tick over `s` emits, in record order.
pub open spec fn spec_tick_cmds(
    s: Seq<(u64, TransitionRecord)>,
    now: u64,
    layouts: Seq<(u64, i64, i64)>,
) -> Seq<TickCommand>
    decreases s.len(),
{
    if s.len() == 0 {
        Seq::empty()
    } else {
        let h = s[0].0;
        let step = spec_tick(s[0].1, now, spec_lookup(layouts, h));
        let rest = spec_tick_cmds(s.drop_first(), now, layouts);
        if step.action == TickAction::Hold {
            rest
        } else {
            seq![TickCommand { handle: h, action: step.action }] + rest
        }
    }
}

/// The records that survive one tick over `s`, in record order.
pub open spec fn spec_tick_keep(
    s: Seq<(u64, TransitionRecord)>,
    now: u64,
    layouts: Seq<(u64, i64, i64)>,
) -> Seq<(u64, TransitionRecord)>
    decreases s.len(),
{
    if s.len() == 0 {
        Seq::empty()
    } else {
        let h = s[0].0;
        let step = spec_tick(s[0].1, now, spec_lookup(layouts, h));
        let rest = spec_tick_keep(s.drop_first(), now, layouts);
        if step.keep {
            seq![s[0]] + rest
        } else {
            rest
        }
    }
}

/// No two records track the same node.
pub open spec fn distinct_handles(s: Seq<(u64, TransitionRecord)>) -> bool {
    forall|i: int, j: int| 0 <= i < j < s.len() ==> s[i].0 != s[j].0
}

proof fn lemma_tick_splits(
    a: Seq<(u64, TransitionRecord)>,
    b: Seq<(u64, TransitionRecord)>,
    now: u64,
    layouts: Seq<(u64, i64, i64)>,
)
    ensures
        spec_tick_cmds(a + b, now, layouts) == spec_tick_cmds(a, now, layouts) + spec_tick_cmds(
            b,
            now,
            layouts,
        ),
        spec_tick_keep(a + b, now, layouts) == spec_tick_keep(a, now, layouts) + spec_tick_keep(
            b,
            now,
            layouts,
        ),
    decreases a.len(),
{
    if a.len() == 0 {
        assert(a + b =~= b);
        assert(spec_tick_cmds(a, now, layouts) + spec_tick_cmds(b, now, layouts) =~= spec_tick_cmds(
            b,
            now,
            layouts,
        ));
        assert(spec_tick_keep(a, now, layouts) + spec_tick_keep(b, now, layouts) =~= spec_tick_keep(
            b,
            now,
            layouts,
        ));
    } else {
        assert((a + b).drop_first() =~= a.drop_first() + b);
        assert((a + b)[0] == a[0]);
        lemma_tick_splits(a.drop_first(), b, now, layouts);
        assert(spec_tick_cmds(a + b, now, layouts) =~= spec_tick_cmds(a, now, layouts)
            + spec_tick_cmds(b, now, layouts));
        assert(spec_tick_keep(a + b, now, layouts) =~= spec_tick_keep(a, now, layouts)
            + spec_tick_keep(b, now, layouts));
    }
}

/// Every surviving record was already in the registry.
proof fn lemma_keep_membership(
    s: Seq<(u64, TransitionRecord)>,
    now: u64,
    layouts: Seq<(u64, i64, i64)>,
)
    ensures
        forall|x: (u64, TransitionRecord)|
            spec_tick_keep(s, now, layouts).contains(x) ==> s.contains(x),
    decreases s.len(),
{
    if s.len() > 0 {
        lemma_keep_membership(s.drop_first(), now, layouts);
        assert forall|x: (u64, TransitionRecord)|
            spec_tick_keep(s, now, layouts).contains(x) implies s.contains(x) by {
            let k = spec_tick_keep(s, now, layouts);
            let i = choose|i: int| 0 <= i < k.len() && k[i] == x;
            let h = s[0].0;
            let step = spec_tick(s[0].1, now, spec_lookup(layouts, h));
            if step.keep && i == 0 {
                assert(s[0] == x);
            } else {
                let rest = spec_tick_keep(s.drop_first(), now, layouts);
                assert(rest.contains(x));
                assert(s.drop_first().contains(x));
                let j = choose|j: int| 0 <= j < s.drop_first().len() && s.drop_first()[j] == x;
                assert(s[j + 1] == x);
            }
        }
    }
}

/// Ticking keeps the handles distinct.
proof fn lemma_keep_distinct(
    s: Seq<(u64, TransitionRecord)>,
    now: u64,
    layouts: Seq<(u64, i64, i64)>,
)
    requires
        distinct_handles(s),
    ensures
        distinct_handles(spec_tick_keep(s, now, layouts)),
    decreases s.len(),
{
    if s.len() > 0 {
        assert(distinct_handles(s.drop_first())) by {
            assert forall|i: int, j: int|
                0 <= i < j < s.drop_first().len() implies s.drop_first()[i].0
                != s.drop_first()[j].0 by {
                assert(s.drop_first()[i] == s[i + 1]);
                assert(s.drop_first()[j] == s[j + 1]);
            }
        }
        lemma_keep_distinct(s.drop_first(), now, layouts);
        lemma_keep_membership(s.drop_first(), now, layouts);
        let h = s[0].0;
        let step = spec_tick(s[0].1, now, spec_lookup(layouts, h));
        let rest = spec_tick_keep(s.drop_first(), now, layouts);
        if step.keep {
            let k = spec_tick_keep(s, now, layouts);
            assert forall|i: int, j: int| 0 <= i < j < k.len() implies k[i].0 != k[j].0 by {
                if i == 0 {
                    assert(k[j] == rest[j - 1]);
                    assert(rest.contains(rest[j - 1]));
                    assert(s.drop_first().contains(rest[j - 1]));
                    let t = choose|t: int|
                        0 <= t < s.drop_first().len() && s.drop_first()[t] == rest[j - 1];
                    assert(s[t + 1] == rest[j - 1]);
                } else {
                    assert(k[i] == rest[i - 1]);
                    assert(k[j] == rest[j - 1]);
                }
            }
        }
    }
}

/// Every tick command refers to a node the registry was tracking.
pub proof fn lemma_tick_cmds_from_records(
    s: Seq<(u64, TransitionRecord)>,
    now: u64,
    layouts: Seq<(u64, i64, i64)>,
)
    ensures
        forall|i: int|
            0 <= i < spec_tick_cmds(s, now, layouts).len() ==> exists|j: int|
                0 <= j < s.len() && s[j].0 == #[trigger] spec_tick_cmds(s, now, layouts)[i].handle,
    decreases s.len(),
{
    if s.len() > 0 {
        lemma_tick_cmds_from_records(s.drop_first(), now, layouts);
        let c = spec_tick_cmds(s, now, layouts);
        let rest = spec_tick_cmds(s.drop_first(), now, layouts);
        let h = s[0].0;
        let step = spec_tick(s[0].1, now, spec_lookup(layouts, h));
        assert forall|i: int| 0 <= i < c.len() implies exists|j: int|
            0 <= j < s.len() && s[j].0 == #[trigger] c[i].handle by {
            if step.action == TickAction::Hold || i > 0 {
                let off: int = if step.action == TickAction::Hold {
                    0
                } else {
                    1
                };
                assert(c[i] == rest[i - off]);
                let j = choose|j: int|
                    0 <= j < s.drop_first().len() && s.drop_first()[j].0 == rest[i - off].handle;
                assert(s[j + 1].0 == c[i].handle);
            } else {
                assert(s[0].0 == c[i].handle);
            }
        }
    }
}

/// The registry of live animation records, keyed by backend handle.
pub struct Registry {
    records: Vec<(u64, TransitionRecord)>,
}

impl View for Registry {
    type V = Seq<(u64, TransitionRecord)>;

    closed spec fn view(&self) -> Seq<(u64, TransitionRecord)> {
        self.records@
    }
}

impl Registry {
    pub open spec fn wf(&self) -> bool {
        distinct_handles(self@)
    }

    pub fn new() -> (r: Registry)
        ensures
            r@ == Seq::<(u64, TransitionRecord)>::empty(),
            r.wf(),
    {
        Registry { records: Vec::new() }
    }

    pub fn len(&self) -> (r: usize)
        ensures
            r == self@.len(),
    {
        self.records.len()
    }

    /// Assign a phase to a node.  A record already tracking the node is
    /// replaced outright — phases are never queued.
    pub fn set(&mut self, handle: u64, rec: TransitionRecord)
        requires
            old(self).wf(),
        ensures
            final(self).wf(),
            (exists|i: int| 0 <= i < old(self)@.len() && old(self)@[i].0 == handle)
                ==> final(self)@.len() == old(self)@.len(),
            !(exists|i: int| 0 <= i < old(self)@.len() && old(self)@[i].0 == handle)
                ==> final(self)@ == old(self)@.push((handle, rec)),
            forall|i: int|
                0 <= i < old(self)@.len() && old(self)@[i].0 != handle ==> final(self)@[i] == old(
                    self,
                )@[i],
            forall|i: int|
                0 <= i < old(self)@.len() && old(self)@[i].0 == handle ==> final(self)@[i] == (
                handle,
                rec,
                ),
    {
        let n: usize = self.records.len();
        let mut i: usize = 0;
        while i < n
            invariant
                n == self.records.len(),
                i <= n,
                old(self).wf(),
                self@ == old(self)@,
                forall|k: int| 0 <= k < i ==> self@[k].0 != handle,
            decreases n - i,
        {
            if self.records[i].0 == handle {
                self.records.set(i, (handle, rec));
                proof {
                    let s = old(self)@;
                    let t = self@;
                    assert(t =~= s.update(i as int, (handle, rec)));
                    assert forall|j: int| 0 <= j < s.len() implies t[j].0 == s[j].0 by {
                        if j == i as int {
                            assert(s[j].0 == handle);
                        }
                    }
                    assert forall|a: int, b: int| 0 <= a < b < t.len() implies t[a].0
                        != t[b].0 by {
                        assert(t[a].0 == s[a].0);
                        assert(t[b].0 == s[b].0);
                    }
                    assert forall|j: int|
                        0 <= j < s.len() && s[j].0 == handle implies t[j] == (
                    handle,
                    rec,
                    ) by {
                        if j != i as int {
                            if j > i as int {
                                assert(s[i as int].0 != s[j].0);
                            }
                            assert(false);
                        }
                    }
                }
                return ;
            }
            i = i + 1;
        }
        proof {
            let s = old(self)@;
            assert forall|j: int| 0 <= j < s.len() implies s[j].0 != handle by {}
        }
        self.records.push((handle, rec));
        proof {
            let s = old(self)@;
            let t = self@;
            assert forall|a: int, b: int| 0 <= a < b < t.len() implies t[a].0 != t[b].0 by {
                if b == s.len() as int {
                    assert(t[a].0 == s[a].0);
                    assert(s[a].0 != handle);
                }
            }
        }
    }

    /// Advance every live record to time `now`.  `layouts` carries the live
    /// layout position of each node the backend still knows, for
    /// layout-aware update smoothing.  Returns the transform and destroy
    /// commands of this tick; completed records are dropped.
    pub fn tick(&mut self, now: u64, layouts: &Vec<(u64, i64, i64)>) -> (cmds: Vec<TickCommand>)
        requires
            old(self).wf(),
        ensures
            final(self).wf(),
            cmds@ == spec_tick_cmds(old(self)@, now, layouts@),
            final(self)@ == spec_tick_keep(old(self)@, now, layouts@),
    {
        let ghost s0 = self@;
        let n: usize = self.records.len();
        let mut cmds: Vec<TickCommand> = Vec::new();
        let mut kept: Vec<(u64, TransitionRecord)> = Vec::new();
        let mut i: usize = 0;
        proof {
            assert(s0.subrange(0, 0) =~= Seq::<(u64, TransitionRecord)>::empty());
        }
        while i < n
            invariant
                n == self.records.len(),
                i <= n,
                self@ == s0,
                cmds@ == spec_tick_cmds(s0.subrange(0, i as int), now, layouts@),
                kept@ == spec_tick_keep(s0.subrange(0, i as int), now, layouts@),
            decreases n - i,
        {
            let (h, rec) = self.records[i];
            let live = lookup_layout(layouts, h);
            let step = tick_record(&rec, now, live);
            let hold = match step.action {
                TickAction::Hold => true,
                _ => false,
            };
            if !hold {
                cmds.push(TickCommand { handle: h, action: step.action });
            }
            if step.keep {
                kept.push((h, rec));
            }
            proof {
                let single = seq![s0[i as int]];
                lemma_tick_splits(s0.subrange(0, i as int), single, now, layouts@);
                assert(s0.subrange(0, i as int) + single =~= s0.subrange(0, i as int + 1));
                assert(single.drop_first() =~= Seq::<(u64, TransitionRecord)>::empty());
                assert(spec_tick_cmds(single.drop_first(), now, layouts@) =~= Seq::<
                    TickCommand,
                >::empty());
                assert(spec_tick_keep(single.drop_first(), now, layouts@) =~= Seq::<
                    (u64, TransitionRecord),
                >::empty());
                assert(single[0] == s0[i as int]);
                assert(h == s0[i as int].0 && rec == s0[i as int].1);
                if hold {
                    assert(spec_tick_cmds(single, now, layouts@) =~= Seq::<TickCommand>::empty());
                } else {
                    assert(spec_tick_cmds(single, now, layouts@) =~= seq![
                        TickCommand { handle: h, action: step.action },
                    ]);
                }
                if step.keep {
                    assert(spec_tick_keep(single, now, layouts@) =~= seq![s0[i as int]]);
                } else {
                    assert(spec_tick_keep(single, now, layouts@) =~= Seq::<
                        (u64, TransitionRecord),
                    >::empty());
                }
                assert(cmds@ =~= spec_tick_cmds(s0.subrange(0, i as int + 1), now, layouts@));
                assert(kept@ =~= spec_tick_keep(s0.subrange(0, i as int + 1), now, layouts@));
            }
            i = i + 1;
        }
        proof {
            assert(s0.subrange(0, n as int) =~= s0);
            lemma_keep_distinct(s0, now, layouts@);
        }
        self.records = kept;
        cmds
    }
}

/// Live layout position of `h`, if the backend reported one.
fn lookup_layout(layouts: &Vec<(u64, i64, i64)>, h: u64) -> (r: Option<(i64, i64)>)
    ensures
        r == spec_lookup(layouts@, h),
{
    let n: usize = layouts.len();
    let mut i: usize = 0;
    proof {
        assert(layouts@.subrange(0, n as int) =~= layouts@);
    }
    while i < n
        invariant
            n == layouts.len(),
            i <= n,
            spec_lookup(layouts@.subrange(i as int, n as int), h) == spec_lookup(layouts@, h),
        decreases n - i,
    {
        let (k, x, y) = layouts[i];
        proof {
            assert(layouts@.subrange(i as int, n as int)[0] == layouts@[i as int]);
            assert(layouts@.subrange(i as int, n as int).drop_first() =~= layouts@.subrange(
                i as int + 1,
                n as int,
            ));
        }
        if k == h {
            return Option::Some((x, y));
        }
        i = i + 1;
    }
    proof {
        assert(layouts@.subrange(n as int, n as int) =~= Seq::<(u64, i64, i64)>::empty());
    }
    Option::None
}

} // verus!
