//! Pass-level properties of the reconciliation engine, stated over the
//! mathematical pass model and proved once and for all.
//!
//! The central result is idempotence, end to end: a first pass over the
//! empty mount point creates exactly the declared nodes, in preorder and
//! with entry animations only at the outermost new level, and a second
//! pass over the unchanged declaration — of any shape and depth — emits no
//! command at all and returns the store untouched, handles included.  The
//! flat-list laws then cover the incremental updates of one level of
//! children: appending one child creates exactly that child, dropping one
//! child in the middle removes exactly that child, and declaring two
//! children in swapped order degrades, by design, to a removal plus a
//! re-creation under a fresh handle.

use vstd::prelude::*;
use crate::commands::CommandModel;
use crate::store::Child;
use crate::store::PassState;
use crate::store::Scope;
use crate::store::chain_handles;
use crate::store::chain_wf;
use crate::store::lemma_chain_count;
use crate::store::lemma_walk_end;
use crate::store::lemma_walk_prefix;
use crate::store::walk;
use crate::store::lemma_close_inv;
use crate::store::lemma_declare_inv;
use crate::store::pass_inv;
use crate::store::removes_of;
use crate::store::scope_inv;
use crate::store::spec_close;
use crate::store::spec_declare;
use crate::store::spec_finish;
use crate::store::spec_open;
use crate::store::spec_scan;
use crate::store::top;

verus! {

/// The record at slot `i` is a leaf carrying `uid`.
pub open spec fn leaf_at(nodes: Seq<Child>, i: int, uid: u64) -> bool {
    &&& 0 <= i < nodes.len()
    &&& nodes[i].uid == uid
    &&& nodes[i].span == 1
    &&& nodes[i].arity == 0
}

/// Declare a flat run of leaves: each uid in turn, each child level closed
/// at once.
pub open spec fn run_leaves(m: PassState, us: Seq<u64>) -> PassState
    decreases us.len(),
{
    if us.len() == 0 {
        m
    } else {
        run_leaves(spec_close(spec_declare(m, us[0], false)), us.drop_first())
    }
}

/// Contiguous leaves form a chain.
proof fn lemma_leaf_chain(nodes: Seq<Child>, start: int, n: nat)
    requires
        0 <= start,
        start + n <= nodes.len(),
        forall|t: int|
            0 <= t < n ==> (#[trigger] nodes[start + t].span) == 1 && nodes[start + t].arity == 0,
    ensures
        chain_wf(nodes, start, n, start + n),
    decreases n,
{
    if n > 0 {
        assert(nodes[start + 0].span == 1);
        assert forall|t: int|
            0 <= t < n - 1 implies (#[trigger] nodes[start + 1 + t].span) == 1 && nodes[start + 1
            + t].arity == 0 by {
            assert(nodes[start + (t + 1)].span == 1 && nodes[start + (t + 1)].arity == 0);
        }
        lemma_leaf_chain(nodes, start + 1, (n - 1) as nat);
        assert(chain_wf(nodes, start + 1, 0, start + 1));
    }
}

/// Declaring leaves that sit exactly where the old store has them, in the
/// same order, touches nothing: no command is emitted, the old records are
/// carried over unchanged (handles preserved), and the level is not marked
/// changed.
proof fn lemma_matching_run(m: PassState, us: Seq<u64>)
    requires
        pass_inv(m),
        m.out.len() + us.len() <= usize::MAX,
        us.len() <= top(m).old_rem,
        forall|t: int| 0 <= t < us.len() ==> leaf_at(m.old, top(m).old_start + t, us[t]),
    ensures
        ({
            let m1 = run_leaves(m, us);
            let sc = top(m);
            &&& pass_inv(m1)
            &&& m1.old == m.old
            &&& m1.next == m.next
            &&& m1.cmds == m.cmds
            &&& m1.out == m.out + m.old.subrange(
                sc.old_start as int,
                sc.old_start + us.len(),
            )
            &&& m1.scopes == m.scopes.update(
                m.scopes.len() - 1,
                Scope {
                    old_start: (sc.old_start + us.len()) as usize,
                    old_rem: (sc.old_rem - us.len()) as usize,
                    count: (sc.count + us.len()) as usize,
                    ..sc
                },
            )
        }),
    decreases us.len(),
{
    let sc = top(m);
    let last = m.scopes.len() - 1;
    assert(scope_inv(m, last));
    lemma_chain_count(m.old, sc.old_start as int, sc.old_rem as nat, sc.old_end@);
    lemma_chain_count(m.out, sc.new_parent + 1, sc.count as nat, m.out.len() as int);
    if us.len() == 0 {
        assert(m.scopes.update(last, Scope { ..sc }) =~= m.scopes);
        assert(m.out + m.old.subrange(sc.old_start as int, sc.old_start as int) =~= m.out);
    } else {
        let u0 = us[0];
        assert(leaf_at(m.old, sc.old_start + 0, u0));
        let j = sc.old_start as int;
        let rec = m.old[j];
        assert(spec_scan(m.old, j, sc.old_rem as nat, u0) == Option::Some((0 as nat, j)));
        lemma_declare_inv(m, u0, false);
        let ma = spec_declare(m, u0, false);
        assert(removes_of(chain_handles(m.old, j, 0)) =~= Seq::<CommandModel>::empty());
        assert(ma.cmds =~= m.cmds);
        assert(ma.out == m.out.push(rec));
        lemma_close_inv(ma);
        let mb = spec_close(ma);
        let child = top(ma);
        assert(child.new_parent == m.out.len());
        assert(child.count == 0 && child.old_rem == 0 && !child.changed);
        assert(removes_of(chain_handles(ma.old, child.old_start as int, 0)) =~= Seq::<
            CommandModel,
        >::empty());
        assert(mb.cmds =~= m.cmds);
        assert(ma.out[child.new_parent as int] == rec);
        assert(mb.out =~= ma.out);
        assert(ma.scopes.drop_last() =~= m.scopes.update(
            last,
            Scope {
                old_start: (j + 1) as usize,
                old_rem: (sc.old_rem - 1) as usize,
                count: (sc.count + 1) as usize,
                ..sc
            },
        ));
        assert(mb.scopes == ma.scopes.drop_last());
        assert(top(mb) == Scope {
            old_start: (j + 1) as usize,
            old_rem: (sc.old_rem - 1) as usize,
            count: (sc.count + 1) as usize,
            ..sc
        });
        assert forall|t: int| 0 <= t < us.drop_first().len() implies leaf_at(
            mb.old,
            top(mb).old_start + t,
            us.drop_first()[t],
        ) by {
            assert(leaf_at(m.old, sc.old_start + (t + 1), us[t + 1]));
        }
        lemma_matching_run(mb, us.drop_first());
        let m1 = run_leaves(mb, us.drop_first());
        assert(run_leaves(m, us) == m1);
        assert(m1.cmds == m.cmds);
        assert(m1.out =~= m.out + m.old.subrange(sc.old_start as int, sc.old_start + us.len()))
            by {
            assert(m1.out == mb.out + mb.old.subrange(j + 1, j + 1 + (us.len() - 1)));
        }
        assert(m1.scopes =~= m.scopes.update(
            last,
            Scope {
                old_start: (sc.old_start + us.len()) as usize,
                old_rem: (sc.old_rem - us.len()) as usize,
                count: (sc.count + us.len()) as usize,
                ..sc
            },
        ));
    }
}

proof fn lemma_chain_handles_one(nodes: Seq<Child>, i: int)
    requires
        0 <= i < nodes.len(),
    ensures
        chain_handles(nodes, i, 1) == seq![nodes[i].handle],
{
    assert(chain_handles(nodes, i + nodes[i].span, 0) =~= Seq::<u64>::empty());
    assert(chain_handles(nodes, i, 1) =~= seq![nodes[i].handle] + chain_handles(
        nodes,
        i + nodes[i].span,
        0,
    ));
    assert(seq![nodes[i].handle] + Seq::<u64>::empty() =~= seq![nodes[i].handle]);
}

/// The shape a flat pass leaves behind: a sentinel whose children are
/// `us.len()` leaves carrying `us` in order, with all handles below `next`.
pub open spec fn flat_store(nodes: Seq<Child>, next: u64, us: Seq<u64>) -> bool {
    &&& nodes.len() == us.len() + 1
    &&& us.len() + 1 <= usize::MAX
    &&& nodes[0] == (Child {
        uid: 0,
        handle: 0,
        span: (us.len() + 1) as usize,
        arity: us.len() as usize,
    })
    &&& forall|t: int| 0 <= t < us.len() ==> leaf_at(nodes, 1 + t, us[t])
    &&& forall|i: int| 0 <= i < nodes.len() ==> nodes[i].handle < next
    &&& next >= 1
}

proof fn lemma_flat_open(nodes: Seq<Child>, next: u64, us: Seq<u64>)
    requires
        flat_store(nodes, next, us),
    ensures
        pass_inv(spec_open(nodes, next)),
        top(spec_open(nodes, next)).old_rem == us.len(),
        top(spec_open(nodes, next)).old_start == 1,
{
    let m = spec_open(nodes, next);
    assert forall|t: int|
        0 <= t < us.len() implies (#[trigger] nodes[1 + t].span) == 1 && nodes[1 + t].arity
        == 0 by {
        assert(leaf_at(nodes, 1 + t, us[t]));
    }
    lemma_leaf_chain(nodes, 1, us.len());
    assert(chain_wf(m.out, 1, 0, 1));
    assert(scope_inv(m, 0));
}

/// Idempotence: re-running an unchanged flat declaration sequence emits no
/// command at all — no create, no update, no remove, no reorder — and
/// returns the store exactly as it was, every handle included.
pub proof fn lemma_pass_idempotent(nodes: Seq<Child>, next: u64, us: Seq<u64>)
    requires
        flat_store(nodes, next, us),
    ensures
        spec_finish(run_leaves(spec_open(nodes, next), us)).1 == Seq::<CommandModel>::empty(),
        spec_finish(run_leaves(spec_open(nodes, next), us)).0 == nodes,
{
    let m = spec_open(nodes, next);
    lemma_flat_open(nodes, next, us);
    lemma_matching_run(m, us);
    let m1 = run_leaves(m, us);
    assert(removes_of(chain_handles(nodes, 1 + us.len() as int, 0)) =~= Seq::<CommandModel>::empty());
    assert(spec_finish(m1).1 =~= Seq::<CommandModel>::empty());
    assert(m1.out == m.out + nodes.subrange(1, 1 + us.len() as int));
    assert(spec_finish(m1).0 =~= nodes);
}

/// Append stability: declaring the same flat list plus one new child `d`
/// creates exactly `d` under the next fresh handle; the records already in
/// place are carried over untouched and receive no command.
pub proof fn lemma_pass_append(nodes: Seq<Child>, next: u64, us: Seq<u64>, d: u64)
    requires
        flat_store(nodes, next, us),
        next < u64::MAX,
        us.len() + 2 <= usize::MAX,
    ensures
        ({
            let fin = spec_finish(
                spec_close(spec_declare(run_leaves(spec_open(nodes, next), us), d, false)),
            );
            &&& fin.1 == seq![CommandModel::Create { handle: next, entry: true }]
            &&& fin.0.len() == nodes.len() + 1
            &&& forall|i: int| 1 <= i < nodes.len() ==> fin.0[i] == nodes[i]
            &&& fin.0[nodes.len() as int] == (Child {
                uid: d,
                handle: next,
                span: 1,
                arity: 0,
            })
        }),
{
    let m = spec_open(nodes, next);
    lemma_flat_open(nodes, next, us);
    lemma_matching_run(m, us);
    let mr = run_leaves(m, us);
    assert(top(mr).old_rem == 0);
    assert(spec_scan(mr.old, top(mr).old_start as int, 0, d) is None);
    lemma_declare_inv(mr, d, false);
    let ma = spec_declare(mr, d, false);
    assert(ma.cmds =~= seq![CommandModel::Create { handle: next, entry: true }]);
    lemma_close_inv(ma);
    let mb = spec_close(ma);
    let child = top(ma);
    assert(child.count == 0 && child.old_rem == 0 && !child.changed);
    assert(removes_of(chain_handles(ma.old, child.old_start as int, 0)) =~= Seq::<
        CommandModel,
    >::empty());
    assert(mb.cmds =~= ma.cmds);
    assert(ma.out[child.new_parent as int] == (Child { uid: d, handle: next, span: 1, arity: 0 }));
    assert(mb.out =~= ma.out);
    let fin = spec_finish(mb);
    assert(top(mb).old_rem == 0);
    assert(removes_of(chain_handles(mb.old, top(mb).old_start as int, 0)) =~= Seq::<
        CommandModel,
    >::empty());
    assert(fin.1 =~= ma.cmds);
    assert(fin.0.len() == nodes.len() + 1);
    assert forall|i: int| 1 <= i < nodes.len() implies fin.0[i] == nodes[i] by {
        assert(mr.out[i] == nodes.subrange(1, 1 + us.len() as int)[i - 1]);
    }
    assert(fin.0[nodes.len() as int] == (Child { uid: d, handle: next, span: 1, arity: 0 }));
}

/// Mid-sequence removal: declaring the flat list with its middle element
/// `b` left out detects `b` as disappeared between its neighbours, emits
/// exactly one remove for it, and carries every other record over with its
/// handle intact.
pub proof fn lemma_pass_mid_removal(nodes: Seq<Child>, next: u64, xs: Seq<u64>, b: u64, ys: Seq<u64>)
    requires
        flat_store(nodes, next, xs + seq![b] + ys),
        ys.len() >= 1,
        ys[0] != b,
    ensures
        ({
            let fin = spec_finish(
                run_leaves(spec_open(nodes, next), xs + ys),
            );
            &&& fin.1 == seq![CommandModel::Remove { handle: nodes[1 + xs.len() as int].handle }]
            &&& fin.0.len() == nodes.len() - 1
            &&& forall|i: int| 1 <= i <= xs.len() ==> fin.0[i] == nodes[i]
            &&& forall|t: int|
                0 <= t < ys.len() ==> (#[trigger] fin.0[1 + xs.len() as int + t]) == nodes[2
                    + xs.len() as int + t]
        }),
{
    let us = xs + seq![b] + ys;
    let nx = xs.len() as int;
    let m = spec_open(nodes, next);
    lemma_flat_open(nodes, next, us);
    assert forall|t: int| 0 <= t < xs.len() implies leaf_at(m.old, 1 + t, xs[t]) by {
        assert(leaf_at(nodes, 1 + t, us[t]));
    }
    lemma_matching_run(m, xs);
    let mr = run_leaves(m, xs);
    assert(top(mr).old_start == 1 + nx && top(mr).old_rem == 1 + ys.len());
    // scanning for the head of `ys` skips exactly the record of `b`
    assert(leaf_at(nodes, 1 + nx, us[nx]));
    assert(us[nx] == b);
    assert(leaf_at(nodes, 2 + nx, us[nx + 1]));
    assert(us[nx + 1] == ys[0]);
    let brec = nodes[1 + nx];
    assert(spec_scan(mr.old, 2 + nx, ys.len() as nat, ys[0]) == Option::Some((0 as nat, 2 + nx)));
    assert(spec_scan(mr.old, 1 + nx, (1 + ys.len()) as nat, ys[0]) == Option::Some(
        (1 as nat, 2 + nx),
    ));
    lemma_declare_inv(mr, ys[0], false);
    let ma = spec_declare(mr, ys[0], false);
    lemma_chain_handles_one(nodes, 1 + nx);
    assert(chain_handles(nodes, 1 + nx, 1) =~= seq![brec.handle]);
    assert(removes_of(seq![brec.handle]) =~= seq![
        CommandModel::Remove { handle: brec.handle },
    ]);
    assert(ma.cmds =~= seq![CommandModel::Remove { handle: brec.handle }]);
    lemma_close_inv(ma);
    let mb = spec_close(ma);
    let child = top(ma);
    assert(child.count == 0 && child.old_rem == 0 && !child.changed);
    assert(removes_of(chain_handles(ma.old, child.old_start as int, 0)) =~= Seq::<
        CommandModel,
    >::empty());
    assert(mb.cmds =~= ma.cmds);
    assert(ma.out[child.new_parent as int] == nodes[2 + nx]);
    assert(mb.out =~= ma.out);
    assert(top(mb).old_start == 3 + nx && top(mb).old_rem == ys.len() - 1);
    assert forall|t: int| 0 <= t < ys.drop_first().len() implies leaf_at(
        mb.old,
        top(mb).old_start + t,
        ys.drop_first()[t],
    ) by {
        assert(leaf_at(nodes, 1 + (2 + nx + t), us[2 + nx + t]));
        assert(us[2 + nx + t] == ys[t + 1]);
    }
    lemma_matching_run(mb, ys.drop_first());
    let m1 = run_leaves(mb, ys.drop_first());
    assert(run_leaves(mr, ys) == m1) by {
        assert(ys.drop_first() == ys.drop_first());
    }
    assert(run_leaves(m, xs + ys) == m1) by {
        lemma_run_leaves_split(m, xs, ys);
    }
    let fin = spec_finish(m1);
    assert(top(m1).old_rem == 0);
    assert(removes_of(chain_handles(m1.old, top(m1).old_start as int, 0)) =~= Seq::<
        CommandModel,
    >::empty());
    assert(fin.1 =~= seq![CommandModel::Remove { handle: brec.handle }]);
    assert(m1.out == mb.out + nodes.subrange(3 + nx, 3 + nx + (ys.len() - 1)));
    assert(fin.0.len() == nodes.len() - 1);
    assert forall|i: int| 1 <= i <= xs.len() implies fin.0[i] == nodes[i] by {
        assert(mr.out[i] == nodes.subrange(1, 1 + nx)[i - 1]);
    }
    assert(mb.out.len() == 2 + nx);
    assert forall|t: int|
        0 <= t < ys.len() implies (#[trigger] fin.0[1 + xs.len() as int + t]) == nodes[2
        + xs.len() as int + t] by {
        if t > 0 {
            assert(m1.out[1 + nx + t] == nodes.subrange(3 + nx, 2 + nx + ys.len())[t - 1]);
        } else {
            assert(m1.out[1 + nx] == mb.out[1 + nx]);
        }
    }
}

/// Splitting a flat run: declaring `xs + ys` is declaring `xs`, then `ys`.
proof fn lemma_run_leaves_split(m: PassState, xs: Seq<u64>, ys: Seq<u64>)
    ensures
        run_leaves(m, xs + ys) == run_leaves(run_leaves(m, xs), ys),
    decreases xs.len(),
{
    if xs.len() == 0 {
        assert(xs + ys =~= ys);
    } else {
        let m1 = spec_close(spec_declare(m, xs[0], false));
        assert((xs + ys)[0] == xs[0]);
        assert((xs + ys).drop_first() =~= xs.drop_first() + ys);
        lemma_run_leaves_split(m1, xs.drop_first(), ys);
    }
}

/// A backward move degrades to delete plus insert: declaring `[b, a]` over
/// a store holding `[a, b]` keeps `b` in place, removes `a`, and recreates
/// `a` as a new node under a fresh handle — the old identity is lost by
/// design, the cost of the forward-only scan.
pub proof fn lemma_pass_backward_move(nodes: Seq<Child>, next: u64, a: u64, b: u64)
    requires
        flat_store(nodes, next, seq![a, b]),
        a != b,
        next < u64::MAX,
    ensures
        ({
            let fin = spec_finish(run_leaves(spec_open(nodes, next), seq![b, a]));
            &&& fin.1 == seq![
                CommandModel::Remove { handle: nodes[1].handle },
                CommandModel::Create { handle: next, entry: true },
            ]
            &&& fin.0.len() == 3
            &&& fin.0[1] == nodes[2]
            &&& fin.0[2] == (Child { uid: a, handle: next, span: 1, arity: 0 })
            &&& fin.0[2].handle != nodes[1].handle
        }),
{
    let us = seq![a, b];
    let m = spec_open(nodes, next);
    lemma_flat_open(nodes, next, us);
    assert(leaf_at(nodes, 1, a) && leaf_at(nodes, 2, b));
    // declare b: a's record is skipped and removed, b matches
    assert(spec_scan(nodes, 2, 1 as nat, b) == Option::Some((0 as nat, 2int)));
    assert(spec_scan(nodes, 1, 2 as nat, b) == Option::Some((1 as nat, 2int)));
    lemma_declare_inv(m, b, false);
    let ma = spec_declare(m, b, false);
    lemma_chain_handles_one(nodes, 1);
    assert(chain_handles(nodes, 1, 1) =~= seq![nodes[1].handle]);
    assert(removes_of(seq![nodes[1].handle]) =~= seq![
        CommandModel::Remove { handle: nodes[1].handle },
    ]);
    assert(ma.cmds =~= seq![CommandModel::Remove { handle: nodes[1].handle }]);
    lemma_close_inv(ma);
    let mb = spec_close(ma);
    assert(top(ma).count == 0 && top(ma).old_rem == 0 && !top(ma).changed);
    assert(removes_of(chain_handles(nodes, top(ma).old_start as int, 0)) =~= Seq::<
        CommandModel,
    >::empty());
    assert(mb.cmds =~= ma.cmds);
    assert(ma.out[top(ma).new_parent as int] == nodes[2]);
    assert(mb.out =~= ma.out);
    assert(top(mb).old_rem == 0);
    // declare a: nothing is left to scan, so a fresh node is created
    assert(spec_scan(nodes, top(mb).old_start as int, 0, a) is None);
    lemma_declare_inv(mb, a, false);
    let mc = spec_declare(mb, a, false);
    assert(mc.cmds =~= seq![
        CommandModel::Remove { handle: nodes[1].handle },
        CommandModel::Create { handle: next, entry: true },
    ]);
    lemma_close_inv(mc);
    let md = spec_close(mc);
    assert(top(mc).count == 0 && top(mc).old_rem == 0 && !top(mc).changed);
    assert(removes_of(chain_handles(nodes, top(mc).old_start as int, 0)) =~= Seq::<
        CommandModel,
    >::empty());
    assert(md.cmds =~= mc.cmds);
    assert(mc.out[top(mc).new_parent as int] == (Child {
        uid: a,
        handle: next,
        span: 1,
        arity: 0,
    }));
    assert(md.out =~= mc.out);
    assert(run_leaves(m, seq![b, a]) == md) by {
        let us2 = seq![b, a];
        assert(us2[0] == b);
        assert(us2.drop_first() =~= seq![a]);
        assert(run_leaves(m, us2) == run_leaves(mb, seq![a]));
        assert(seq![a][0] == a);
        assert(seq![a].drop_first() =~= Seq::<u64>::empty());
        assert(run_leaves(mb, seq![a]) == run_leaves(md, Seq::<u64>::empty()));
        assert(run_leaves(md, Seq::<u64>::empty()) == md);
    }
    let fin = spec_finish(md);
    assert(top(md).old_rem == 0);
    assert(removes_of(chain_handles(nodes, top(md).old_start as int, 0)) =~= Seq::<
        CommandModel,
    >::empty());
    assert(fin.1 =~= md.cmds);
    assert(fin.0.len() == 3);
    assert(fin.0[1] == nodes[2]);
    assert(fin.0[2] == (Child { uid: a, handle: next, span: 1, arity: 0 }));
}

/// The create commands of a fresh flat run: one per uid, under
/// consecutive handles from `h`, each playing its own entry animation.
pub open spec fn creates_of(us: Seq<u64>, h: u64) -> Seq<CommandModel>
    decreases us.len(),
{
    if us.len() == 0 {
        Seq::empty()
    } else {
        seq![CommandModel::Create { handle: h, entry: true }] + creates_of(
            us.drop_first(),
            (h + 1) as u64,
        )
    }
}

/// The leaf records of a fresh flat run, under consecutive handles.
pub open spec fn leaves_of(us: Seq<u64>, h: u64) -> Seq<Child>
    decreases us.len(),
{
    if us.len() == 0 {
        Seq::empty()
    } else {
        seq![Child { uid: us[0], handle: h, span: 1, arity: 0 }] + leaves_of(
            us.drop_first(),
            (h + 1) as u64,
        )
    }
}

/// Declaring leaves where the store has nothing left creates all of them:
/// one create command each, under consecutive fresh handles, and the
/// rebuilt array gains exactly those leaf records.
proof fn lemma_creating_run(m: PassState, us: Seq<u64>)
    requires
        pass_inv(m),
        m.out.len() + us.len() <= usize::MAX,
        m.next + us.len() <= u64::MAX,
        top(m).old_rem == 0,
        top(m).entry,
    ensures
        ({
            let m1 = run_leaves(m, us);
            let sc = top(m);
            &&& pass_inv(m1)
            &&& m1.old == m.old
            &&& m1.next == m.next + us.len()
            &&& m1.cmds == m.cmds + creates_of(us, m.next)
            &&& m1.out == m.out + leaves_of(us, m.next)
            &&& m1.scopes == m.scopes.update(
                m.scopes.len() - 1,
                Scope {
                    count: (sc.count + us.len()) as usize,
                    changed: sc.changed || us.len() > 0,
                    ..sc
                },
            )
        }),
    decreases us.len(),
{
    let sc = top(m);
    let last = m.scopes.len() - 1;
    assert(scope_inv(m, last));
    lemma_chain_count(m.out, sc.new_parent + 1, sc.count as nat, m.out.len() as int);
    if us.len() == 0 {
        assert(m.scopes.update(last, Scope { ..sc }) =~= m.scopes);
        assert(m.out + leaves_of(us, m.next) =~= m.out);
        assert(m.cmds + creates_of(us, m.next) =~= m.cmds);
    } else {
        let u0 = us[0];
        let h = m.next;
        let rec = Child { uid: u0, handle: h, span: 1, arity: 0 };
        assert(spec_scan(m.old, sc.old_start as int, 0, u0) is None);
        lemma_declare_inv(m, u0, false);
        let ma = spec_declare(m, u0, false);
        assert(ma.cmds == m.cmds.push(CommandModel::Create { handle: h, entry: true }));
        assert(ma.out == m.out.push(rec));
        lemma_close_inv(ma);
        let mb = spec_close(ma);
        let child = top(ma);
        assert(child.count == 0 && child.old_rem == 0 && !child.changed);
        assert(removes_of(chain_handles(ma.old, child.old_start as int, 0)) =~= Seq::<
            CommandModel,
        >::empty());
        assert(mb.cmds =~= ma.cmds);
        assert(ma.out[child.new_parent as int] == rec);
        assert(mb.out =~= ma.out);
        assert(mb.scopes == ma.scopes.drop_last());
        assert(ma.scopes.drop_last() =~= m.scopes.update(
            last,
            Scope { count: (sc.count + 1) as usize, changed: true, ..sc },
        ));
        assert(top(mb) == Scope { count: (sc.count + 1) as usize, changed: true, ..sc });
        lemma_creating_run(mb, us.drop_first());
        let m1 = run_leaves(mb, us.drop_first());
        assert(run_leaves(m, us) == m1);
        assert(m1.cmds =~= m.cmds + creates_of(us, m.next)) by {
            assert(m1.cmds == mb.cmds + creates_of(us.drop_first(), (h + 1) as u64));
        }
        assert(m1.out =~= m.out + leaves_of(us, m.next)) by {
            assert(m1.out == mb.out + leaves_of(us.drop_first(), (h + 1) as u64));
        }
        assert(m1.scopes =~= m.scopes.update(
            last,
            Scope {
                count: (sc.count + us.len()) as usize,
                changed: sc.changed || us.len() > 0,
                ..sc
            },
        ));
    }
}

/// A first pass over the empty mount point creates every declared leaf —
/// and nothing else — and leaves behind exactly the flat store that the
/// incremental laws above start from.  Together with them this closes the
/// loop: declare a list, re-declare it unchanged, and the second pass is
/// silent.
pub proof fn lemma_first_pass_builds_flat_store(us: Seq<u64>)
    requires
        us.len() + 1 <= usize::MAX,
        us.len() + 1 <= u64::MAX,
    ensures
        ({
            let sentinel = Child { uid: 0, handle: 0, span: 1, arity: 0 };
            let fin = spec_finish(run_leaves(spec_open(seq![sentinel], 1), us));
            &&& fin.1 == creates_of(us, 1)
            &&& flat_store(fin.0, (us.len() + 1) as u64, us)
        }),
{
    let sentinel = Child { uid: 0, handle: 0, span: 1, arity: 0 };
    let nodes = seq![sentinel];
    let m = spec_open(nodes, 1);
    assert(chain_wf(nodes, 1, 0, 1));
    assert(chain_wf(m.out, 1, 0, 1));
    assert(scope_inv(m, 0));
    assert(pass_inv(m));
    lemma_creating_run(m, us);
    let m1 = run_leaves(m, us);
    assert(top(m1).old_rem == 0);
    assert(removes_of(chain_handles(m1.old, top(m1).old_start as int, 0)) =~= Seq::<
        CommandModel,
    >::empty());
    let fin = spec_finish(m1);
    assert(fin.1 =~= Seq::<CommandModel>::empty() + creates_of(us, 1) + Seq::<
        CommandModel,
    >::empty());
    assert(Seq::<CommandModel>::empty() + creates_of(us, 1) + Seq::<CommandModel>::empty()
        =~= creates_of(us, 1));
    let next1 = (us.len() + 1) as u64;
    lemma_leaves_shape(us, 1);
    assert(leaves_of(us, 1).len() == us.len());
    assert(fin.0 =~= seq![
        Child { uid: 0, handle: 0, span: (us.len() + 1) as usize, arity: us.len() as usize },
    ] + leaves_of(us, 1));
    assert forall|t: int| 0 <= t < us.len() implies leaf_at(fin.0, 1 + t, us[t]) by {
        assert(fin.0[1 + t] == leaves_of(us, 1)[t]);
    }
    assert forall|i: int| 0 <= i < fin.0.len() implies fin.0[i].handle < next1 by {
        if i >= 1 {
            assert(fin.0[i] == leaves_of(us, 1)[i - 1]);
        }
    }
}

/// The leaf records of a fresh run carry the uids in order and handles
/// `h`, `h + 1`, ...
proof fn lemma_leaves_shape(us: Seq<u64>, h: u64)
    requires
        h + us.len() <= u64::MAX,
    ensures
        leaves_of(us, h).len() == us.len(),
        forall|t: int|
            0 <= t < us.len() ==> (#[trigger] leaves_of(us, h)[t]) == (Child {
                uid: us[t],
                handle: (h + t) as u64,
                span: 1,
                arity: 0,
            }),
    decreases us.len(),
{
    if us.len() > 0 {
        lemma_leaves_shape(us.drop_first(), (h + 1) as u64);
        assert forall|t: int|
            0 <= t < us.len() implies (#[trigger] leaves_of(us, h)[t]) == (Child {
            uid: us[t],
            handle: (h + t) as u64,
            span: 1,
            arity: 0,
        }) by {
            if t > 0 {
                assert(leaves_of(us, h)[t] == leaves_of(us.drop_first(), (h + 1) as u64)[t - 1]);
                assert(us.drop_first()[t - 1] == us[t]);
            }
        }
    }
}

/// One node of a declaration pass: a uid and the declarations of its
/// children, in order.
pub struct DeclTree {
    pub uid: u64,
    pub kids: Seq<DeclTree>,
}

/// Declare one subtree: the node, then its children, then close its level.
pub open spec fn run_tree(m: PassState, t: DeclTree) -> PassState
    decreases t, 0int, 0int,
{
    spec_close(run_forest(spec_declare(m, t.uid, false), t.kids, 0))
}

/// Declare the trees of `f` from index `k` on, at the current level.
pub open spec fn run_forest(m: PassState, f: Seq<DeclTree>, k: int) -> PassState
    decreases f, 1int, f.len() - k,
{
    if k < 0 || k >= f.len() {
        m
    } else {
        run_forest(run_tree(m, f[k]), f, k + 1)
    }
}

/// The record at slot `i` heads a stored subtree that matches `t`: same
/// uid, same number of children, and matching child subtrees in order.
pub open spec fn tree_at(nodes: Seq<Child>, i: int, t: DeclTree) -> bool
    decreases t, 0int, 0int,
{
    &&& 0 <= i < nodes.len()
    &&& nodes[i].uid == t.uid
    &&& nodes[i].arity == t.kids.len()
    &&& forest_at(nodes, i + 1, t.kids, 0)
}

/// The records from slot `i` on match the trees of `f` from index `k` on.
pub open spec fn forest_at(nodes: Seq<Child>, i: int, f: Seq<DeclTree>, k: int) -> bool
    decreases f, 1int, f.len() - k,
{
    if k < 0 || k >= f.len() {
        true
    } else {
        &&& 0 <= i < nodes.len()
        &&& tree_at(nodes, i, f[k])
        &&& forest_at(nodes, i + nodes[i].span, f, k + 1)
    }
}

/// Re-declaring a stored subtree that matches the declaration exactly
/// emits nothing and copies the subtree's records — handles included.
proof fn lemma_matching_tree(m: PassState, t: DeclTree)
    requires
        pass_inv(m),
        1 <= top(m).old_rem,
        tree_at(m.old, top(m).old_start as int, t),
        m.out.len() + (top(m).old_end@ - top(m).old_start) <= usize::MAX,
    ensures
        ({
            let m1 = run_tree(m, t);
            let sc = top(m);
            let sp = m.old[sc.old_start as int].span;
            &&& pass_inv(m1)
            &&& m1.old == m.old
            &&& m1.next == m.next
            &&& m1.cmds == m.cmds
            &&& m1.out == m.out + m.old.subrange(sc.old_start as int, sc.old_start + sp)
            &&& m1.scopes == m.scopes.update(
                m.scopes.len() - 1,
                Scope {
                    old_start: (sc.old_start + sp) as usize,
                    old_rem: (sc.old_rem - 1) as usize,
                    count: (sc.count + 1) as usize,
                    ..sc
                },
            )
        }),
    decreases t, 1int, 0int,
{
    let sc = top(m);
    let last = m.scopes.len() - 1;
    let j = sc.old_start as int;
    let rec = m.old[j];
    assert(scope_inv(m, last));
    assert(chain_wf(m.old, j, sc.old_rem as nat, sc.old_end@));
    lemma_chain_count(m.out, sc.new_parent + 1, sc.count as nat, m.out.len() as int);
    assert(spec_scan(m.old, j, sc.old_rem as nat, t.uid) == Option::Some((0 as nat, j)));
    lemma_declare_inv(m, t.uid, false);
    let ma = spec_declare(m, t.uid, false);
    assert(removes_of(chain_handles(m.old, j, 0)) =~= Seq::<CommandModel>::empty());
    assert(ma.cmds =~= m.cmds);
    let child = top(ma);
    assert(child.old_start == j + 1 && child.old_rem == rec.arity);
    assert(child.old_end@ == j + rec.span && child.new_parent == m.out.len());
    assert(child.count == 0 && !child.changed);
    assert(forest_at(ma.old, j + 1, t.kids, 0));
    lemma_matching_forest(ma, t.kids, 0);
    let mf = run_forest(ma, t.kids, 0);
    lemma_walk_end(m.old, j + 1, rec.arity as nat, j + rec.span);
    assert(mf.out == ma.out + m.old.subrange(j + 1, j + rec.span));
    assert(mf.cmds == m.cmds);
    lemma_close_inv(mf);
    let mc = spec_close(mf);
    let cf = top(mf);
    assert(cf.old_rem == 0 && cf.count == t.kids.len() && !cf.changed);
    assert(cf.new_parent == m.out.len());
    assert(removes_of(chain_handles(mf.old, cf.old_start as int, 0)) =~= Seq::<
        CommandModel,
    >::empty());
    assert(mc.cmds =~= m.cmds);
    assert(mf.out[cf.new_parent as int] == (Child {
        uid: t.uid,
        handle: rec.handle,
        span: 1,
        arity: 0,
    }));
    assert(mf.out.len() - cf.new_parent == rec.span);
    assert(mc.out =~= m.out + m.old.subrange(j, j + rec.span));
    assert(mf.scopes.drop_last() =~= m.scopes.update(
        last,
        Scope {
            old_start: (j + rec.span) as usize,
            old_rem: (sc.old_rem - 1) as usize,
            count: (sc.count + 1) as usize,
            ..sc
        },
    ));
    assert(run_tree(m, t) == mc);
}

/// Re-declaring stored subtrees that match the declared forest exactly
/// emits nothing and copies their records — handles included.
proof fn lemma_matching_forest(m: PassState, f: Seq<DeclTree>, k: int)
    requires
        pass_inv(m),
        0 <= k <= f.len(),
        f.len() - k <= top(m).old_rem,
        forest_at(m.old, top(m).old_start as int, f, k),
        m.out.len() + (top(m).old_end@ - top(m).old_start) <= usize::MAX,
    ensures
        ({
            let m1 = run_forest(m, f, k);
            let sc = top(m);
            let w = walk(m.old, sc.old_start as int, (f.len() - k) as nat);
            &&& pass_inv(m1)
            &&& m1.old == m.old
            &&& m1.next == m.next
            &&& m1.cmds == m.cmds
            &&& m1.out == m.out + m.old.subrange(sc.old_start as int, w)
            &&& m1.scopes == m.scopes.update(
                m.scopes.len() - 1,
                Scope {
                    old_start: w as usize,
                    old_rem: (sc.old_rem - (f.len() - k)) as usize,
                    count: (sc.count + (f.len() - k)) as usize,
                    ..sc
                },
            )
        }),
    decreases f, 2int, f.len() - k,
{
    let sc = top(m);
    let last = m.scopes.len() - 1;
    let j = sc.old_start as int;
    assert(scope_inv(m, last));
    assert(chain_wf(m.old, j, sc.old_rem as nat, sc.old_end@));
    lemma_chain_count(m.old, j, sc.old_rem as nat, sc.old_end@);
    lemma_chain_count(m.out, sc.new_parent + 1, sc.count as nat, m.out.len() as int);
    if k == f.len() {
        assert(walk(m.old, j, 0) == j);
        assert(m.out + m.old.subrange(j, j) =~= m.out);
        assert(m.scopes.update(last, Scope { ..sc }) =~= m.scopes);
    } else {
        let sp = m.old[j].span;
        assert(tree_at(m.old, j, f[k]));
        assert(forest_at(m.old, j + sp, f, k + 1));
        lemma_matching_tree(m, f[k]);
        let m1 = run_tree(m, f[k]);
        let sc1 = top(m1);
        assert(sc1 == Scope {
            old_start: (j + sp) as usize,
            old_rem: (sc.old_rem - 1) as usize,
            count: (sc.count + 1) as usize,
            ..sc
        });
        lemma_matching_forest(m1, f, k + 1);
        let m2 = run_forest(m1, f, k + 1);
        assert(run_forest(m, f, k) == m2);
        let w1 = walk(m.old, j + sp, (f.len() - k - 1) as nat);
        assert(walk(m.old, j, (f.len() - k) as nat) == w1);
        lemma_walk_prefix(m.old, j + sp, (sc.old_rem - 1) as nat, sc.old_end@, (f.len() - k
            - 1) as nat);
        assert(j + sp <= w1 <= sc.old_end@);
        assert(m2.out =~= m.out + m.old.subrange(j, w1)) by {
            assert(m2.out == m1.out + m.old.subrange(j + sp, w1));
            assert(m1.out == m.out + m.old.subrange(j, j + sp));
        }
        assert(m2.scopes =~= m.scopes.update(
            last,
            Scope {
                old_start: w1 as usize,
                old_rem: (sc.old_rem - (f.len() - k)) as usize,
                count: (sc.count + (f.len() - k)) as usize,
                ..sc
            },
        ));
    }
}

/// Flattened slots a freshly created subtree occupies.
pub open spec fn tree_slots(t: DeclTree) -> nat
    decreases t, 0int, 0int,
{
    (1 + forest_slots(t.kids, 0)) as nat
}

/// Flattened slots the trees of `f` from index `k` on occupy.
pub open spec fn forest_slots(f: Seq<DeclTree>, k: int) -> nat
    decreases f, 1int, f.len() - k,
{
    if k < 0 || k >= f.len() {
        0
    } else {
        (tree_slots(f[k]) + forest_slots(f, k + 1)) as nat
    }
}

/// The records of a freshly created subtree, handles allocated in preorder
/// from `h`.
pub open spec fn tree_recs(t: DeclTree, h: u64) -> Seq<Child>
    decreases t, 0int, 0int,
{
    seq![
        Child {
            uid: t.uid,
            handle: h,
            span: tree_slots(t) as usize,
            arity: t.kids.len() as usize,
        },
    ] + forest_recs(t.kids, (h + 1) as u64, 0)
}

/// The records of freshly created subtrees for the trees of `f` from `k`.
pub open spec fn forest_recs(f: Seq<DeclTree>, h: u64, k: int) -> Seq<Child>
    decreases f, 1int, f.len() - k,
{
    if k < 0 || k >= f.len() {
        Seq::empty()
    } else {
        tree_recs(f[k], h) + forest_recs(f, (h + tree_slots(f[k])) as u64, k + 1)
    }
}

/// The handles of the subtree roots of `f` from `k`, handles from `h`.
pub open spec fn root_handles(f: Seq<DeclTree>, h: u64, k: int) -> Seq<u64>
    decreases f, 1int, f.len() - k,
{
    if k < 0 || k >= f.len() {
        Seq::empty()
    } else {
        seq![h] + root_handles(f, (h + tree_slots(f[k])) as u64, k + 1)
    }
}

/// The commands a freshly created subtree emits: its create, its
/// children's commands, and — when it has children — the reorder carrying
/// their order.  Only a subtree root at `entry` level animates.
pub open spec fn tree_cmds(t: DeclTree, h: u64, entry: bool) -> Seq<CommandModel>
    decreases t, 0int, 0int,
{
    seq![CommandModel::Create { handle: h, entry }] + forest_cmds(t.kids, (h + 1) as u64, 0, false)
        + if t.kids.len() > 0 {
        seq![
            CommandModel::Reorder { parent: h, order: root_handles(t.kids, (h + 1) as u64, 0) },
        ]
    } else {
        Seq::empty()
    }
}

/// The commands the trees of `f` from `k` emit when freshly created.
pub open spec fn forest_cmds(f: Seq<DeclTree>, h: u64, k: int, entry: bool) -> Seq<CommandModel>
    decreases f, 1int, f.len() - k,
{
    if k < 0 || k >= f.len() {
        Seq::empty()
    } else {
        tree_cmds(f[k], h, entry) + forest_cmds(f, (h + tree_slots(f[k])) as u64, k + 1, entry)
    }
}

/// Fresh records take one slot per node.
proof fn lemma_tree_recs_len(t: DeclTree, h: u64)
    ensures
        tree_recs(t, h).len() == tree_slots(t),
    decreases t, 0int, 0int,
{
    lemma_forest_recs_len(t.kids, (h + 1) as u64, 0);
}

proof fn lemma_forest_recs_len(f: Seq<DeclTree>, h: u64, k: int)
    ensures
        forest_recs(f, h, k).len() == forest_slots(f, k),
    decreases f, 1int, f.len() - k,
{
    if 0 <= k < f.len() {
        lemma_tree_recs_len(f[k], h);
        lemma_forest_recs_len(f, (h + tree_slots(f[k])) as u64, k + 1);
    }
}

/// A forest has at least one slot per tree.
proof fn lemma_forest_count(f: Seq<DeclTree>, k: int)
    ensures
        0 <= k <= f.len() ==> f.len() - k <= forest_slots(f, k),
    decreases f, 1int, f.len() - k,
{
    if 0 <= k < f.len() {
        assert(tree_slots(f[k]) >= 1);
        lemma_forest_count(f, k + 1);
    }
}

/// Walking the root records of freshly created subtrees collects their
/// handles in preorder allocation order.
proof fn lemma_forest_roots(out: Seq<Child>, p: int, f: Seq<DeclTree>, h: u64, k: int)
    requires
        0 <= k <= f.len(),
        0 <= p,
        forest_slots(f, k) <= usize::MAX,
        h + forest_slots(f, k) <= u64::MAX,
        p + forest_slots(f, k) <= out.len(),
        out.subrange(p, p + forest_slots(f, k)) == forest_recs(f, h, k),
    ensures
        chain_handles(out, p, (f.len() - k) as nat) == root_handles(f, h, k),
    decreases f.len() - k,
{
    if k < f.len() {
        let sp = tree_slots(f[k]);
        lemma_tree_recs_len(f[k], h);
        assert(sp <= forest_slots(f, k) && sp >= 1) by {
            assert(tree_slots(f[k]) >= 1);
        }
        lemma_forest_recs_len(f, (h + sp) as u64, k + 1);
        assert(out[p] == forest_recs(f, h, k)[0]);
        assert(out[p] == tree_recs(f[k], h)[0]);
        assert(out[p].span == sp && out[p].handle == h);
        assert(out.subrange(p + sp, p + sp + forest_slots(f, k + 1)) =~= forest_recs(
            f,
            (h + sp) as u64,
            k + 1,
        )) by {
            assert forall|q: int|
                0 <= q < forest_slots(f, k + 1) implies (#[trigger] out.subrange(
                p + sp,
                p + sp + forest_slots(f, k + 1),
            )[q]) == forest_recs(f, (h + sp) as u64, k + 1)[q] by {
                assert(out.subrange(p, p + forest_slots(f, k))[sp + q] == forest_recs(
                    f,
                    h,
                    k,
                )[sp + q]);
            }
        }
        lemma_forest_roots(out, p + sp, f, (h + sp) as u64, k + 1);
        assert(chain_handles(out, p, (f.len() - k) as nat) =~= root_handles(f, h, k));
    } else {
        assert(chain_handles(out, p, 0) =~= Seq::<u64>::empty());
        assert(root_handles(f, h, k) =~= Seq::<u64>::empty());
    }
}

/// Freshly created records form a well-formed chain that matches the
/// declaration forest, with every handle in `[h, h + slots)`.
proof fn lemma_recs_shape_tree(nodes: Seq<Child>, p: int, t: DeclTree, h: u64)
    requires
        0 <= p,
        tree_slots(t) <= usize::MAX,
        p + tree_slots(t) <= nodes.len(),
        h + tree_slots(t) <= u64::MAX,
        nodes.subrange(p, p + tree_slots(t)) == tree_recs(t, h),
    ensures
        tree_at(nodes, p, t),
        nodes[p].span == tree_slots(t),
        1 <= nodes[p].span,
        chain_wf(nodes, p + 1, t.kids.len() as nat, p + tree_slots(t)),
        forall|q: int| p <= q < p + tree_slots(t) ==> h <= (#[trigger] nodes[q].handle) < h
            + tree_slots(t),
    decreases t, 0int, 0int,
{
    lemma_forest_recs_len(t.kids, (h + 1) as u64, 0);
    lemma_forest_count(t.kids, 0);
    assert(t.kids.len() <= forest_slots(t.kids, 0));
    assert(nodes[p] == tree_recs(t, h)[0]);
    assert(nodes.subrange(p + 1, p + 1 + forest_slots(t.kids, 0)) =~= forest_recs(
        t.kids,
        (h + 1) as u64,
        0,
    )) by {
        assert forall|q: int|
            0 <= q < forest_slots(t.kids, 0) implies (#[trigger] nodes.subrange(
            p + 1,
            p + 1 + forest_slots(t.kids, 0),
        )[q]) == forest_recs(t.kids, (h + 1) as u64, 0)[q] by {
            assert(nodes.subrange(p, p + tree_slots(t))[1 + q] == tree_recs(t, h)[1 + q]);
        }
    }
    lemma_recs_shape_forest(nodes, p + 1, t.kids, (h + 1) as u64, 0);
    assert forall|q: int|
        p <= q < p + tree_slots(t) implies h <= (#[trigger] nodes[q].handle) < h + tree_slots(
        t,
    ) by {
        if q > p {
            assert(nodes.subrange(p + 1, p + 1 + forest_slots(t.kids, 0))[q - p - 1]
                == nodes[q]);
        }
    }
}

proof fn lemma_recs_shape_forest(nodes: Seq<Child>, p: int, f: Seq<DeclTree>, h: u64, k: int)
    requires
        0 <= k <= f.len(),
        0 <= p,
        forest_slots(f, k) <= usize::MAX,
        p + forest_slots(f, k) <= nodes.len(),
        h + forest_slots(f, k) <= u64::MAX,
        nodes.subrange(p, p + forest_slots(f, k)) == forest_recs(f, h, k),
    ensures
        chain_wf(nodes, p, (f.len() - k) as nat, p + forest_slots(f, k)),
        forest_at(nodes, p, f, k),
        forall|q: int| p <= q < p + forest_slots(f, k) ==> h <= (#[trigger] nodes[q].handle) < h
            + forest_slots(f, k),
    decreases f, 1int, f.len() - k,
{
    if k < f.len() {
        let sp = tree_slots(f[k]);
        lemma_tree_recs_len(f[k], h);
        assert(sp <= forest_slots(f, k) && sp >= 1) by {
            assert(tree_slots(f[k]) >= 1);
        }
        lemma_forest_recs_len(f, (h + sp) as u64, k + 1);
        assert(nodes.subrange(p, p + sp) =~= tree_recs(f[k], h)) by {
            assert forall|q: int| 0 <= q < sp implies (#[trigger] nodes.subrange(p, p + sp)[q])
                == tree_recs(f[k], h)[q] by {
                assert(nodes.subrange(p, p + forest_slots(f, k))[q] == forest_recs(f, h, k)[q]);
            }
        }
        assert(nodes.subrange(p + sp, p + sp + forest_slots(f, k + 1)) =~= forest_recs(
            f,
            (h + sp) as u64,
            k + 1,
        )) by {
            assert forall|q: int|
                0 <= q < forest_slots(f, k + 1) implies (#[trigger] nodes.subrange(
                p + sp,
                p + sp + forest_slots(f, k + 1),
            )[q]) == forest_recs(f, (h + sp) as u64, k + 1)[q] by {
                assert(nodes.subrange(p, p + forest_slots(f, k))[sp + q] == forest_recs(
                    f,
                    h,
                    k,
                )[sp + q]);
            }
        }
        lemma_recs_shape_tree(nodes, p, f[k], h);
        lemma_recs_shape_forest(nodes, p + sp, f, (h + sp) as u64, k + 1);
        assert(chain_wf(nodes, p, (f.len() - k) as nat, p + forest_slots(f, k)));
        assert forall|q: int|
            p <= q < p + forest_slots(f, k) implies h <= (#[trigger] nodes[q].handle) < h
            + forest_slots(f, k) by {
            if q < p + sp {
                assert(h <= nodes[q].handle < h + sp);
            } else {
                assert((h + sp) as u64 <= nodes[q].handle < (h + sp) as u64 + forest_slots(
                    f,
                    k + 1,
                ));
            }
        }
    } else {
        assert(nodes.subrange(p, p) =~= Seq::<Child>::empty());
    }
}

/// Declaring a subtree where the store has nothing left creates all of its
/// nodes in preorder under consecutive fresh handles, one create command
/// each plus the reorder that installs the new children, and appends
/// exactly the subtree's records to the rebuilt array.
proof fn lemma_creating_tree(m: PassState, t: DeclTree)
    requires
        pass_inv(m),
        top(m).old_rem == 0,
        m.out.len() + tree_slots(t) <= usize::MAX,
        m.next + tree_slots(t) <= u64::MAX,
    ensures
        ({
            let m1 = run_tree(m, t);
            let sc = top(m);
            &&& pass_inv(m1)
            &&& m1.old == m.old
            &&& m1.next == m.next + tree_slots(t)
            &&& m1.cmds == m.cmds + tree_cmds(t, m.next, sc.entry)
            &&& m1.out == m.out + tree_recs(t, m.next)
            &&& m1.scopes == m.scopes.update(
                m.scopes.len() - 1,
                Scope { count: (sc.count + 1) as usize, changed: true, ..sc },
            )
        }),
    decreases t, 2int, 0int,
{
    let sc = top(m);
    let last = m.scopes.len() - 1;
    let h = m.next;
    assert(scope_inv(m, last));
    lemma_chain_count(m.out, sc.new_parent + 1, sc.count as nat, m.out.len() as int);
    lemma_forest_recs_len(t.kids, (h + 1) as u64, 0);
    lemma_forest_count(t.kids, 0);
    assert(spec_scan(m.old, sc.old_start as int, 0, t.uid) is None);
    lemma_declare_inv(m, t.uid, false);
    let ma = spec_declare(m, t.uid, false);
    assert(ma.cmds == m.cmds.push(CommandModel::Create { handle: h, entry: sc.entry }));
    assert(ma.out == m.out.push(Child { uid: t.uid, handle: h, span: 1, arity: 0 }));
    let child = top(ma);
    assert(child.old_rem == 0 && child.count == 0 && !child.changed && !child.entry);
    assert(child.new_parent == m.out.len());
    lemma_creating_forest(ma, t.kids, 0);
    let mf = run_forest(ma, t.kids, 0);
    assert(mf.out == ma.out + forest_recs(t.kids, (h + 1) as u64, 0));
    assert(mf.cmds == ma.cmds + forest_cmds(t.kids, (h + 1) as u64, 0, false));
    assert(mf.next == h + tree_slots(t));
    let cf = top(mf);
    assert(cf.count == t.kids.len() && cf.old_rem == 0);
    assert(cf.changed == (t.kids.len() > 0));
    assert(cf.new_parent == m.out.len());
    lemma_close_inv(mf);
    let mc = spec_close(mf);
    assert(removes_of(chain_handles(mf.old, cf.old_start as int, 0)) =~= Seq::<
        CommandModel,
    >::empty());
    assert(mf.out[cf.new_parent as int] == (Child { uid: t.uid, handle: h, span: 1, arity: 0 }));
    assert(mf.out.len() - cf.new_parent == tree_slots(t));
    assert(mc.out =~= m.out + tree_recs(t, h)) by {
        let target = m.out + tree_recs(t, h);
        assert(ma.out.len() == m.out.len() + 1);
        assert(mc.out.len() == target.len());
        assert forall|q: int| 0 <= q < mc.out.len() implies mc.out[q] == target[q] by {
            if q < m.out.len() {
                assert(mf.out[q] == ma.out[q]);
                assert(ma.out[q] == m.out[q]);
            } else if q == m.out.len() {
                assert(target[q] == tree_recs(t, h)[0]);
            } else {
                assert(mc.out[q] == mf.out[q]);
                assert(mf.out[q] == forest_recs(t.kids, (h + 1) as u64, 0)[q - m.out.len()
                    - 1]);
                assert(target[q] == tree_recs(t, h)[q - m.out.len()]);
            }
        }
    }
    if t.kids.len() > 0 {
        assert(mf.out.subrange(
            cf.new_parent + 1,
            cf.new_parent + 1 + forest_slots(t.kids, 0),
        ) =~= forest_recs(t.kids, (h + 1) as u64, 0));
        lemma_forest_roots(
            mf.out,
            cf.new_parent + 1,
            t.kids,
            (h + 1) as u64,
            0,
        );
        assert(mc.cmds =~= m.cmds + tree_cmds(t, h, sc.entry));
    } else {
        assert(tree_cmds(t, h, sc.entry) =~= seq![
            CommandModel::Create { handle: h, entry: sc.entry },
        ] + forest_cmds(t.kids, (h + 1) as u64, 0, false));
        assert(mc.cmds =~= m.cmds + tree_cmds(t, h, sc.entry));
    }
    assert(mf.scopes.drop_last() =~= m.scopes.update(
        last,
        Scope { count: (sc.count + 1) as usize, changed: true, ..sc },
    ));
    assert(run_tree(m, t) == mc);
}

/// Declaring a forest where the store has nothing left creates everything.
proof fn lemma_creating_forest(m: PassState, f: Seq<DeclTree>, k: int)
    requires
        pass_inv(m),
        0 <= k <= f.len(),
        top(m).old_rem == 0,
        m.out.len() + forest_slots(f, k) <= usize::MAX,
        m.next + forest_slots(f, k) <= u64::MAX,
    ensures
        ({
            let m1 = run_forest(m, f, k);
            let sc = top(m);
            &&& pass_inv(m1)
            &&& m1.old == m.old
            &&& m1.next == m.next + forest_slots(f, k)
            &&& m1.cmds == m.cmds + forest_cmds(f, m.next, k, sc.entry)
            &&& m1.out == m.out + forest_recs(f, m.next, k)
            &&& m1.scopes == m.scopes.update(
                m.scopes.len() - 1,
                Scope {
                    count: (sc.count + (f.len() - k)) as usize,
                    changed: sc.changed || k < f.len(),
                    ..sc
                },
            )
        }),
    decreases f, 3int, f.len() - k,
{
    let sc = top(m);
    let last = m.scopes.len() - 1;
    assert(scope_inv(m, last));
    lemma_chain_count(m.out, sc.new_parent + 1, sc.count as nat, m.out.len() as int);
    lemma_forest_count(f, k);
    if k == f.len() {
        assert(m.scopes.update(last, Scope { ..sc }) =~= m.scopes);
        assert(m.out + forest_recs(f, m.next, k) =~= m.out);
        assert(m.cmds + forest_cmds(f, m.next, k, sc.entry) =~= m.cmds);
    } else {
        let sp = tree_slots(f[k]);
        assert(forest_slots(f, k) == sp + forest_slots(f, k + 1));
        assert(sp <= forest_slots(f, k) && sp >= 1) by {
            assert(tree_slots(f[k]) >= 1);
        }
        lemma_creating_tree(m, f[k]);
        let m1 = run_tree(m, f[k]);
        assert(top(m1) == Scope { count: (sc.count + 1) as usize, changed: true, ..sc });
        lemma_tree_recs_len(f[k], m.next);
        assert(m1.out.len() == m.out.len() + sp);
        lemma_creating_forest(m1, f, k + 1);
        let m2 = run_forest(m1, f, k + 1);
        assert(run_forest(m, f, k) == m2);
        assert(m2.cmds =~= m.cmds + forest_cmds(f, m.next, k, sc.entry)) by {
            assert(m2.cmds == m1.cmds + forest_cmds(f, (m.next + sp) as u64, k + 1, sc.entry));
        }
        assert(m2.out =~= m.out + forest_recs(f, m.next, k)) by {
            assert(m2.out == m1.out + forest_recs(f, (m.next + sp) as u64, k + 1));
        }
        assert(m2.scopes =~= m.scopes.update(
            last,
            Scope {
                count: (sc.count + (f.len() - k)) as usize,
                changed: sc.changed || k < f.len(),
                ..sc
            },
        ));
    }
}

/// A first pass over the empty mount point creates every declared node in
/// preorder — with entry animations only at the outermost level — and
/// leaves behind exactly the flattening of the declared forest.
pub proof fn lemma_first_pass_builds_tree(f: Seq<DeclTree>)
    requires
        1 + forest_slots(f, 0) <= usize::MAX,
        1 + forest_slots(f, 0) <= u64::MAX,
    ensures
        ({
            let sentinel = Child { uid: 0, handle: 0, span: 1, arity: 0 };
            let m1 = run_forest(spec_open(seq![sentinel], 1), f, 0);
            let fin = spec_finish(m1);
            &&& fin.1 == forest_cmds(f, 1, 0, true)
            &&& fin.0 == seq![
                Child {
                    uid: 0,
                    handle: 0,
                    span: (1 + forest_slots(f, 0)) as usize,
                    arity: f.len() as usize,
                },
            ] + forest_recs(f, 1, 0)
            &&& m1.next == 1 + forest_slots(f, 0)
        }),
{
    let sentinel = Child { uid: 0, handle: 0, span: 1, arity: 0 };
    let nodes = seq![sentinel];
    let m = spec_open(nodes, 1);
    assert(chain_wf(nodes, 1, 0, 1));
    assert(chain_wf(m.out, 1, 0, 1));
    assert(scope_inv(m, 0));
    assert(pass_inv(m));
    lemma_forest_count(f, 0);
    lemma_creating_forest(m, f, 0);
    let m1 = run_forest(m, f, 0);
    lemma_forest_recs_len(f, 1, 0);
    assert(top(m1).old_rem == 0);
    assert(removes_of(chain_handles(m1.old, top(m1).old_start as int, 0)) =~= Seq::<
        CommandModel,
    >::empty());
    let fin = spec_finish(m1);
    assert(fin.1 =~= forest_cmds(f, 1, 0, true)) by {
        assert(m1.cmds == Seq::<CommandModel>::empty() + forest_cmds(f, 1, 0, true));
    }
    assert(fin.0 =~= seq![
        Child {
            uid: 0,
            handle: 0,
            span: (1 + forest_slots(f, 0)) as usize,
            arity: f.len() as usize,
        },
    ] + forest_recs(f, 1, 0));
}

/// Idempotence, end to end: declare any forest over the empty mount point,
/// then re-declare it unchanged — the second pass emits no command at all
/// and returns the store exactly as the first pass built it.
pub proof fn lemma_declared_twice_is_silent(f: Seq<DeclTree>)
    requires
        1 + forest_slots(f, 0) <= usize::MAX,
        1 + forest_slots(f, 0) <= u64::MAX,
    ensures
        ({
            let sentinel = Child { uid: 0, handle: 0, span: 1, arity: 0 };
            let m1 = run_forest(spec_open(seq![sentinel], 1), f, 0);
            let store1 = spec_finish(m1).0;
            let again = spec_finish(run_forest(spec_open(store1, m1.next), f, 0));
            &&& again.1 == Seq::<CommandModel>::empty()
            &&& again.0 == store1
        }),
{
    let sentinel = Child { uid: 0, handle: 0, span: 1, arity: 0 };
    lemma_first_pass_builds_tree(f);
    let m1 = run_forest(spec_open(seq![sentinel], 1), f, 0);
    let store1 = spec_finish(m1).0;
    let slots = forest_slots(f, 0);
    let next1 = m1.next;
    lemma_forest_recs_len(f, 1, 0);
    lemma_forest_count(f, 0);
    assert(store1.subrange(1, 1 + slots as int) =~= forest_recs(f, 1, 0));
    lemma_recs_shape_forest(store1, 1, f, 1, 0);
    lemma_tree_pass_idempotent(store1, (next1) as u64, f);
}

/// Idempotence: re-running a declaration forest that matches the stored
/// tree exactly — the second pass over any unchanged declaration — emits
/// no command at all and returns the store unchanged, handles included.
pub proof fn lemma_tree_pass_idempotent(nodes: Seq<Child>, next: u64, f: Seq<DeclTree>)
    requires
        nodes.len() >= 1,
        nodes.len() <= usize::MAX,
        nodes[0] == (Child {
            uid: 0,
            handle: 0,
            span: nodes.len() as usize,
            arity: f.len() as usize,
        }),
        chain_wf(nodes, 1, f.len() as nat, nodes.len() as int),
        forest_at(nodes, 1, f, 0),
        forall|i: int| 0 <= i < nodes.len() ==> nodes[i].handle < next,
        next >= 1,
    ensures
        spec_finish(run_forest(spec_open(nodes, next), f, 0)).1 == Seq::<CommandModel>::empty(),
        spec_finish(run_forest(spec_open(nodes, next), f, 0)).0 == nodes,
{
    let m = spec_open(nodes, next);
    lemma_chain_count(nodes, 1, f.len() as nat, nodes.len() as int);
    assert(f.len() <= nodes.len() - 1);
    assert(top(m).old_rem == f.len());
    assert(chain_wf(m.out, 1, 0, 1));
    assert(scope_inv(m, 0));
    assert(pass_inv(m));
    lemma_matching_forest(m, f, 0);
    let m1 = run_forest(m, f, 0);
    lemma_walk_end(nodes, 1, f.len() as nat, nodes.len() as int);
    assert(m1.out == m.out + nodes.subrange(1, nodes.len() as int));
    assert(top(m1).old_rem == 0);
    assert(removes_of(chain_handles(nodes, top(m1).old_start as int, 0)) =~= Seq::<
        CommandModel,
    >::empty());
    assert(spec_finish(m1).1 =~= Seq::<CommandModel>::empty());
    assert(spec_finish(m1).0 =~= nodes);
}

} // verus!
