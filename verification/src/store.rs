//! Flattened tree store and the reconciliation pass.
//!
//! The store keeps one node tree as a single contiguous sequence of records
//! in preorder, prefixed by a sentinel record for the mount point itself.
//! Each record carries its subtree's `span` (the number of flattened slots
//! the node and its whole subtree occupy) and its `arity` (the number of
//! direct children), so a forward scan can jump from sibling to sibling.
//!
//! A pass re-declares the tree against the store: `open_pass` hands out a
//! `Pass` whose cursor walks one tree level at a time (`declare` opens a
//! child's level, `close` finishes it).  Matching is forward-only: a
//! declared uid is looked for among the unvisited old siblings of the
//! current level; records skipped on the way to a match have disappeared
//! and receive a remove command, and a uid that is not found is a new node.
//! The pass rebuilds the flattened array in preorder as it goes and emits
//! deferred backend commands; the old array is never consulted again after
//! `finish` returns the rebuilt store.

use vstd::prelude::*;
use crate::commands::Command;
use crate::commands::CommandModel;
use crate::svec::HandleList;
use crate::svec;

verus! {

/// One record of the flattened preorder store.
#[derive(Clone, Copy, PartialEq, Eq, Structural, Debug)]
pub struct Child {
    /// Stable identity among siblings, supplied by the caller.
    pub uid: u64,
    /// Backend node identifier.
    pub handle: u64,
    /// Flattened slots occupied by this node and its whole subtree.
    pub span: usize,
    /// Number of direct children.
    pub arity: usize,
}

/// `n` sibling records starting at slot `i` fill `[i, end)` exactly: each
/// record's span covers its own slot plus its children's chain, and the
/// sibling spans tile the region.
pub open spec fn chain_wf(nodes: Seq<Child>, i: int, n: nat, end: int) -> bool
    decreases end - i, n,
{
    if n == 0 {
        i == end
    } else {
        &&& 0 <= i
        &&& i < end
        &&& end <= nodes.len()
        &&& 1 <= nodes[i].span
        &&& i + nodes[i].span <= end
        &&& chain_wf(nodes, i + 1, nodes[i].arity as nat, i + nodes[i].span)
        &&& chain_wf(nodes, i + nodes[i].span, (n - 1) as nat, end)
    }
}

/// The handles of `n` sibling records starting at slot `i`, in order.
pub open spec fn chain_handles(nodes: Seq<Child>, i: int, n: nat) -> Seq<u64>
    decreases n,
{
    if n == 0 {
        Seq::empty()
    } else if !(0 <= i < nodes.len()) {
        Seq::empty()
    } else {
        seq![nodes[i].handle] + chain_handles(nodes, i + nodes[i].span, (n - 1) as nat)
    }
}

/// The slot just past `n` sibling subtrees starting at slot `i`.
pub open spec fn walk(nodes: Seq<Child>, i: int, n: nat) -> int
    decreases n,
{
    if n == 0 {
        i
    } else if !(0 <= i < nodes.len()) {
        i
    } else {
        walk(nodes, i + nodes[i].span, (n - 1) as nat)
    }
}

/// A chain's records walk exactly to its end.
pub proof fn lemma_walk_end(nodes: Seq<Child>, i: int, n: nat, end: int)
    requires
        chain_wf(nodes, i, n, end),
    ensures
        walk(nodes, i, n) == end,
    decreases n,
{
    if n > 0 {
        lemma_walk_end(nodes, i + nodes[i].span, (n - 1) as nat, end);
    }
}

/// A prefix of a chain walks to a slot inside the region, and the rest of
/// the chain continues from there.
pub proof fn lemma_walk_prefix(nodes: Seq<Child>, i: int, n: nat, end: int, t: nat)
    requires
        chain_wf(nodes, i, n, end),
        t <= n,
    ensures
        i <= walk(nodes, i, t) <= end,
        chain_wf(nodes, walk(nodes, i, t), (n - t) as nat, end),
    decreases t,
{
    if t > 0 {
        lemma_walk_prefix(nodes, i + nodes[i].span, (n - 1) as nat, end, (t - 1) as nat);
    }
}

/// A chain never holds more records than slots.
pub proof fn lemma_chain_count(nodes: Seq<Child>, i: int, n: nat, end: int)
    requires
        chain_wf(nodes, i, n, end),
    ensures
        i + n <= end,
        i <= end,
    decreases n,
{
    if n > 0 {
        lemma_chain_count(nodes, i + nodes[i].span, (n - 1) as nat, end);
    }
}

/// A chain only looks at the slots of its own region, so it survives any
/// edit outside `[i, end)`.
proof fn lemma_chain_agree(s1: Seq<Child>, s2: Seq<Child>, i: int, n: nat, end: int)
    requires
        chain_wf(s1, i, n, end),
        end <= s2.len(),
        forall|t: int| i <= t < end ==> s1[t] == s2[t],
    ensures
        chain_wf(s2, i, n, end),
        chain_handles(s2, i, n) == chain_handles(s1, i, n),
    decreases end - i, n,
{
    if n > 0 {
        lemma_chain_count(s1, i + 1, s1[i].arity as nat, i + s1[i].span);
        lemma_chain_agree(s1, s2, i + 1, s1[i].arity as nat, i + s1[i].span);
        lemma_chain_agree(s1, s2, i + s1[i].span, (n - 1) as nat, end);
    }
}

/// Extending a chain by one further record whose subtree fills `[m, e)`.
proof fn lemma_chain_append(nodes: Seq<Child>, i: int, n: nat, m: int, e: int)
    requires
        chain_wf(nodes, i, n, m),
        0 <= m < e <= nodes.len(),
        1 <= nodes[m].span,
        m + nodes[m].span == e,
        chain_wf(nodes, m + 1, nodes[m].arity as nat, e),
    ensures
        chain_wf(nodes, i, (n + 1) as nat, e),
        chain_handles(nodes, i, (n + 1) as nat) == chain_handles(nodes, i, n).push(
            nodes[m].handle,
        ),
    decreases n,
{
    if n == 0 {
        assert(i == m);
        assert(chain_wf(nodes, m + nodes[m].span, 0, e));
        assert(chain_wf(nodes, i, 1, e));
        assert(chain_handles(nodes, m + nodes[m].span, 0) =~= Seq::<u64>::empty());
        assert(chain_handles(nodes, i, 1) == seq![nodes[m].handle] + chain_handles(
            nodes,
            m + nodes[m].span,
            0,
        ));
        assert(chain_handles(nodes, i, 1) =~= chain_handles(nodes, i, 0).push(nodes[m].handle));
    } else {
        lemma_chain_append(nodes, i + nodes[i].span, (n - 1) as nat, m, e);
        assert(chain_wf(nodes, i + nodes[i].span, n, e));
        assert(chain_wf(nodes, i, (n + 1) as nat, e));
        assert(chain_handles(nodes, i, (n + 1) as nat) =~= chain_handles(nodes, i, n).push(
            nodes[m].handle,
        ));
    }
}

/// The persistent flattened store, one per mount point.  It survives across
/// passes; a pass consumes it and `finish` returns the rebuilt store.
pub struct Store {
    nodes: Vec<Child>,
    next_handle: u64,
}

impl View for Store {
    type V = Seq<Child>;

    closed spec fn view(&self) -> Seq<Child> {
        self.nodes@
    }
}

impl Store {
    /// The next backend handle this store would allocate.
    pub closed spec fn next(&self) -> u64 {
        self.next_handle
    }

    /// The store is a sentinel record whose subtree is the whole array,
    /// its children tiling the rest, and every handle already allocated.
    pub open spec fn wf(&self) -> bool {
        &&& self@.len() >= 1
        &&& self@[0].span == self@.len()
        &&& chain_wf(self@, 1, self@[0].arity as nat, self@.len() as int)
        &&& forall|i: int| 0 <= i < self@.len() ==> self@[i].handle < self.next()
        &&& self.next() >= 1
    }

    /// An empty mount point: just the sentinel.
    pub fn new() -> (s: Store)
        ensures
            s.wf(),
            s@ == seq![Child { uid: 0, handle: 0, span: 1, arity: 0 }],
            s.next() == 1,
    {
        let mut nodes: Vec<Child> = Vec::new();
        nodes.push(Child { uid: 0, handle: 0, span: 1, arity: 0 });
        proof {
            assert(nodes@ =~= seq![Child { uid: 0, handle: 0, span: 1, arity: 0 }]);
        }
        Store { nodes, next_handle: 1 }
    }

    /// Number of slots, the sentinel included.
    pub fn size(&self) -> (r: usize)
        ensures
            r == self@.len(),
    {
        self.nodes.len()
    }

    /// The record at slot `i`.
    pub fn record(&self, i: usize) -> (r: Child)
        requires
            i < self@.len(),
        ensures
            r == self@[i as int],
    {
        self.nodes[i]
    }
}

/// One open tree level of a pass: the cursor state for the children of one
/// record under (re)construction.
#[derive(Clone, Copy)]
pub struct Scope {
    /// Next unvisited old sibling of this level, as a slot of the old array.
    pub old_start: usize,
    /// Old siblings of this level not yet visited.
    pub old_rem: usize,
    /// One past the last old slot of this level.
    pub old_end: Ghost<int>,
    /// Slot of the record whose children this level declares, in the
    /// rebuilt array.
    pub new_parent: usize,
    /// Children confirmed at this level so far in this pass.
    pub count: usize,
    /// Whether this level's direct children changed (insert or removal),
    /// which is what makes a reorder command necessary on exit.
    pub changed: bool,
    /// Whether a node freshly created at this level plays its own entry
    /// animation; false once an ancestor was created in the same pass.
    pub entry: bool,
}

/// The command sequence as its mathematical image.
pub open spec fn cmd_views(s: Seq<Command>) -> Seq<CommandModel> {
    s.map_values(|c: Command| c@)
}

proof fn lemma_cmd_views_push(s: Seq<Command>, c: Command)
    ensures
        cmd_views(s.push(c)) == cmd_views(s).push(c@),
{
    assert(cmd_views(s.push(c)) =~= cmd_views(s).push(c@));
}

/// The mathematical image of a pass in flight.
#[verifier::ext_equal]
pub struct PassState {
    /// The store as it was when the pass opened; never edited.
    pub old: Seq<Child>,
    /// The rebuilt flattened array, grown in preorder.
    pub out: Seq<Child>,
    /// The stack of open tree levels, root level first.
    pub scopes: Seq<Scope>,
    /// The backend commands emitted so far.
    pub cmds: Seq<CommandModel>,
    /// Next backend handle to allocate.
    pub next: u64,
}

/// The innermost open level.
pub open spec fn top(m: PassState) -> Scope {
    m.scopes[m.scopes.len() - 1]
}

/// What holds of level `k` of the stack while a pass is in flight: its
/// unvisited old siblings tile the rest of its old region, and the children
/// it has confirmed tile the rebuilt array from just after its parent
/// record up to the next open level's parent record (for the innermost
/// level: up to the end of the rebuilt array).
pub open spec fn scope_inv(m: PassState, k: int) -> bool {
    let sc = m.scopes[k];
    &&& 0 <= sc.old_start
    &&& sc.old_start <= sc.old_end@
    &&& sc.old_end@ <= m.old.len()
    &&& chain_wf(m.old, sc.old_start as int, sc.old_rem as nat, sc.old_end@)
    &&& sc.new_parent < m.out.len()
    &&& if k == m.scopes.len() - 1 {
        chain_wf(m.out, sc.new_parent + 1, sc.count as nat, m.out.len() as int)
    } else {
        &&& sc.count >= 1
        &&& chain_wf(
            m.out,
            sc.new_parent + 1,
            (sc.count - 1) as nat,
            m.scopes[k + 1].new_parent as int,
        )
    }
}

/// The pass invariant: every open level satisfies its scope invariant and
/// every handle on record was allocated below `next`.
pub open spec fn pass_inv(m: PassState) -> bool {
    &&& m.scopes.len() >= 1
    &&& m.out.len() >= 1
    &&& m.old.len() <= usize::MAX
    &&& m.out.len() <= usize::MAX
    &&& m.scopes[0].new_parent == 0
    &&& forall|k: int| 0 <= k < m.scopes.len() ==> #[trigger] scope_inv(m, k)
    &&& forall|i: int| 0 <= i < m.old.len() ==> m.old[i].handle < m.next
    &&& forall|i: int| 0 <= i < m.out.len() ==> m.out[i].handle < m.next
    &&& m.next >= 1
}

/// The state `open_pass` hands out: the root level's cursor sits just past
/// the sentinel with the sentinel's children still unvisited, the rebuilt
/// array holds a fresh sentinel, and no command has been emitted.
pub open spec fn spec_open(nodes: Seq<Child>, next: u64) -> PassState {
    PassState {
        old: nodes,
        out: seq![Child { uid: 0, handle: 0, span: 1, arity: 0 }],
        scopes: seq![
            Scope {
                old_start: 1,
                old_rem: nodes[0].arity,
                old_end: Ghost(nodes.len() as int),
                new_parent: 0,
                count: 0,
                changed: false,
                entry: true,
            },
        ],
        cmds: Seq::empty(),
        next,
    }
}

/// A reconciliation pass in flight.  It consumes the store, walks it level
/// by level as the caller re-declares the tree, and produces the rebuilt
/// store together with the deferred backend commands.
pub struct Pass {
    old: Vec<Child>,
    out: Vec<Child>,
    scopes: Vec<Scope>,
    cmds: Vec<Command>,
    next_handle: u64,
}

impl View for Pass {
    type V = PassState;

    closed spec fn view(&self) -> PassState {
        PassState {
            old: self.old@,
            out: self.out@,
            scopes: self.scopes@,
            cmds: cmd_views(self.cmds@),
            next: self.next_handle,
        }
    }
}

impl Store {
    /// Open a pass over this store: the root cursor is scoped to the
    /// sentinel's children.
    pub fn open_pass(self) -> (p: Pass)
        requires
            self.wf(),
        ensures
            p@ == spec_open(self@, self.next()),
            pass_inv(p@),
            p@.scopes.len() == 1,
    {
        let arity: usize = self.nodes[0].arity;
        let ghost old_nodes = self@;
        let mut out: Vec<Child> = Vec::new();
        out.push(Child { uid: 0, handle: 0, span: 1, arity: 0 });
        let mut scopes: Vec<Scope> = Vec::new();
        scopes.push(
            Scope {
                old_start: 1,
                old_rem: arity,
                old_end: Ghost(old_nodes.len() as int),
                new_parent: 0,
                count: 0,
                changed: false,
                entry: true,
            },
        );
        let p = Pass {
            old: self.nodes,
            out,
            scopes,
            cmds: Vec::new(),
            next_handle: self.next_handle,
        };
        proof {
            assert(p@ =~= spec_open(old_nodes, self.next()));
            assert(chain_wf(p@.out, 1, 0, 1));
            assert(scope_inv(p@, 0));
        }
        p
    }
}

/// Forward scan for `uid`: walk up to `n` sibling records from slot `i`,
/// jumping by spans.  On a match, gives the number of siblings skipped on
/// the way and the matching slot.
pub open spec fn spec_scan(nodes: Seq<Child>, i: int, n: nat, uid: u64) -> Option<(nat, int)>
    decreases n,
{
    if n == 0 {
        Option::None
    } else if !(0 <= i < nodes.len()) {
        Option::None
    } else if nodes[i].uid == uid {
        Option::Some((0 as nat, i))
    } else {
        match spec_scan(nodes, i + nodes[i].span, (n - 1) as nat, uid) {
            Option::None => Option::None,
            Option::Some((k, j)) => Option::Some(((k + 1) as nat, j)),
        }
    }
}

/// A successful scan splits the chain at the match: the skipped records
/// form a chain up to the matching slot, which heads the rest.
pub proof fn lemma_scan_split(nodes: Seq<Child>, i: int, n: nat, end: int, uid: u64)
    requires
        chain_wf(nodes, i, n, end),
        spec_scan(nodes, i, n, uid) is Some,
    ensures
        ({
            let (k, j) = spec_scan(nodes, i, n, uid)->Some_0;
            &&& k < n
            &&& i <= j < end
            &&& nodes[j].uid == uid
            &&& chain_wf(nodes, i, k, j)
            &&& chain_wf(nodes, j, (n - k) as nat, end)
        }),
    decreases n,
{
    if n > 0 && nodes[i].uid != uid {
        lemma_scan_split(nodes, i + nodes[i].span, (n - 1) as nat, end, uid);
        let (k, j) = spec_scan(nodes, i + nodes[i].span, (n - 1) as nat, uid)->Some_0;
        lemma_chain_count(nodes, i + nodes[i].span, k, j);
        assert(chain_wf(nodes, i, (k + 1) as nat, j));
    }
}

/// Remove commands for a sequence of handles, in order.
pub open spec fn removes_of(hs: Seq<u64>) -> Seq<CommandModel> {
    hs.map_values(|h: u64| CommandModel::Remove { handle: h })
}

/// The handle `declare` confirms for `uid` at the current level: the
/// matched record's handle, or the next fresh one.
pub open spec fn declared_handle(m: PassState, uid: u64) -> u64 {
    let sc = top(m);
    match spec_scan(m.old, sc.old_start as int, sc.old_rem as nat, uid) {
        Option::Some((k, j)) => m.old[j].handle,
        Option::None => m.next,
    }
}

/// One `declare` step on the pass state.
///
/// A match at slot `j`, `k` siblings ahead: the skipped siblings have
/// disappeared and each gets a remove command; the matched record is
/// confirmed (its subtree to be rebuilt by the child level that opens), and
/// a dynamic declaration that saw a change reissues the node's content.
/// No match: the node is new — a fresh handle is allocated and a create
/// command emitted, suppressing entry animations below it.
pub open spec fn spec_declare(m: PassState, uid: u64, upd: bool) -> PassState {
    let sc = top(m);
    let last = m.scopes.len() - 1;
    match spec_scan(m.old, sc.old_start as int, sc.old_rem as nat, uid) {
        Option::Some((k, j)) => {
            let rec = m.old[j];
            let removed = removes_of(chain_handles(m.old, sc.old_start as int, k));
            let updates: Seq<CommandModel> = if upd {
                seq![CommandModel::Update { handle: rec.handle }]
            } else {
                Seq::empty()
            };
            let parent = Scope {
                old_start: (j + rec.span) as usize,
                old_rem: (sc.old_rem - k - 1) as usize,
                count: (sc.count + 1) as usize,
                changed: sc.changed || k > 0,
                ..sc
            };
            let child = Scope {
                old_start: (j + 1) as usize,
                old_rem: rec.arity,
                old_end: Ghost(j + rec.span),
                new_parent: m.out.len() as usize,
                count: 0,
                changed: false,
                entry: sc.entry,
            };
            PassState {
                out: m.out.push(Child { uid, handle: rec.handle, span: 1, arity: 0 }),
                scopes: m.scopes.update(last, parent).push(child),
                cmds: m.cmds + removed + updates,
                ..m
            }
        },
        Option::None => {
            let h = m.next;
            let parent = Scope { count: (sc.count + 1) as usize, changed: true, ..sc };
            let child = Scope {
                old_start: sc.old_start,
                old_rem: 0,
                old_end: Ghost(sc.old_start as int),
                new_parent: m.out.len() as usize,
                count: 0,
                changed: false,
                entry: false,
            };
            PassState {
                out: m.out.push(Child { uid, handle: h, span: 1, arity: 0 }),
                scopes: m.scopes.update(last, parent).push(child),
                cmds: m.cmds.push(CommandModel::Create { handle: h, entry: sc.entry }),
                next: (h + 1) as u64,
                ..m
            }
        },
    }
}

/// `declare` keeps the pass invariant and opens one level.
pub proof fn lemma_declare_inv(m: PassState, uid: u64, upd: bool)
    requires
        pass_inv(m),
        m.out.len() < usize::MAX,
        spec_scan(m.old, top(m).old_start as int, top(m).old_rem as nat, uid) is None
            ==> m.next < u64::MAX,
    ensures
        pass_inv(spec_declare(m, uid, upd)),
        spec_declare(m, uid, upd).scopes.len() == m.scopes.len() + 1,
{
    let sc = top(m);
    let last = m.scopes.len() - 1;
    let m1 = spec_declare(m, uid, upd);
    assert(scope_inv(m, last));
    lemma_chain_count(m.out, sc.new_parent + 1, sc.count as nat, m.out.len() as int);
    assert(sc.count + 1 <= usize::MAX);
    match spec_scan(m.old, sc.old_start as int, sc.old_rem as nat, uid) {
        Option::Some((k, j)) => {
            lemma_scan_split(m.old, sc.old_start as int, sc.old_rem as nat, sc.old_end@, uid);
            let rec = m.old[j];
            assert(chain_wf(m.old, j, (sc.old_rem - k) as nat, sc.old_end@));
            assert(chain_wf(m.old, j + 1, rec.arity as nat, j + rec.span));
            assert(chain_wf(m.old, j + rec.span, (sc.old_rem - k - 1) as nat, sc.old_end@));
            assert forall|t: int| 0 <= t < m1.scopes.len() implies #[trigger] scope_inv(
                m1,
                t,
            ) by {
                if t < last {
                    assert(scope_inv(m, t));
                    assert(m1.scopes[t] == m.scopes[t]);
                    assert(m1.scopes[t + 1].new_parent == m.scopes[t + 1].new_parent);
                    lemma_chain_agree(
                        m.out,
                        m1.out,
                        m.scopes[t].new_parent + 1,
                        (m.scopes[t].count - 1) as nat,
                        m.scopes[t + 1].new_parent as int,
                    );
                } else if t == last {
                    lemma_chain_agree(
                        m.out,
                        m1.out,
                        sc.new_parent + 1,
                        sc.count as nat,
                        m.out.len() as int,
                    );
                } else {
                    assert(chain_wf(m1.out, m.out.len() as int + 1, 0, m1.out.len() as int));
                    lemma_chain_agree(
                        m.old,
                        m.old,
                        j + 1,
                        rec.arity as nat,
                        j + rec.span,
                    );
                }
            }
        },
        Option::None => {
            assert forall|t: int| 0 <= t < m1.scopes.len() implies #[trigger] scope_inv(
                m1,
                t,
            ) by {
                if t < last {
                    assert(scope_inv(m, t));
                    assert(m1.scopes[t] == m.scopes[t]);
                    assert(m1.scopes[t + 1].new_parent == m.scopes[t + 1].new_parent);
                    lemma_chain_agree(
                        m.out,
                        m1.out,
                        m.scopes[t].new_parent + 1,
                        (m.scopes[t].count - 1) as nat,
                        m.scopes[t + 1].new_parent as int,
                    );
                } else if t == last {
                    lemma_chain_agree(
                        m.out,
                        m1.out,
                        sc.new_parent + 1,
                        sc.count as nat,
                        m.out.len() as int,
                    );
                } else {
                    assert(chain_wf(m1.out, m.out.len() as int + 1, 0, m1.out.len() as int));
                    assert(chain_wf(m1.old, sc.old_start as int, 0, sc.old_start as int));
                }
            }
        },
    }
}

/// Shift a scan result by `t` already-skipped siblings.
spec fn scan_shift(r: Option<(nat, int)>, t: nat) -> Option<(nat, int)> {
    match r {
        Option::None => Option::None,
        Option::Some((k, j)) => Option::Some(((k + t) as nat, j)),
    }
}

/// Walk up to `rem` old siblings from `start`, jumping by spans, comparing
/// uids.
fn scan_level(old: &Vec<Child>, start: usize, rem: usize, uid: u64, Ghost(end): Ghost<int>) -> (r:
    Option<(usize, usize)>)
    requires
        chain_wf(old@, start as int, rem as nat, end),
    ensures
        match r {
            Option::Some(kj) => spec_scan(old@, start as int, rem as nat, uid) == Option::Some(
                ((kj.0 as nat), (kj.1 as int)),
            ) && kj.0 < rem && start <= kj.1 < old@.len(),
            Option::None => spec_scan(old@, start as int, rem as nat, uid) is None,
        },
{
    let total: usize = old.len();
    let mut i: usize = start;
    let mut t: usize = 0;
    while t < rem
        invariant
            t <= rem,
            start <= i,
            total == old@.len(),
            chain_wf(old@, i as int, (rem - t) as nat, end),
            spec_scan(old@, start as int, rem as nat, uid) == scan_shift(
                spec_scan(old@, i as int, (rem - t) as nat, uid),
                t as nat,
            ),
        decreases rem - t,
    {
        if old[i].uid == uid {
            return Option::Some((t, i));
        }
        proof {
            let shifted = spec_scan(old@, i as int + old@[i as int].span, (rem - t - 1) as nat, uid);
            assert(spec_scan(old@, i as int, (rem - t) as nat, uid) == scan_shift(shifted, 1));
            assert(scan_shift(scan_shift(shifted, 1), t as nat) == scan_shift(
                shifted,
                (t + 1) as nat,
            ));
        }
        proof {
            assert(i + old@[i as int].span <= end && end <= old@.len());
        }
        i = i + old[i].span;
        t = t + 1;
    }
    Option::None
}

/// Emit one remove command for each of the `n` sibling subtrees starting
/// at `start`: they disappeared from the declaration.
fn emit_removes(nodes: &Vec<Child>, start: usize, n: usize, Ghost(end): Ghost<int>, cmds: &mut Vec<
    Command,
>)
    requires
        chain_wf(nodes@, start as int, n as nat, end),
    ensures
        cmd_views(final(cmds)@) == cmd_views(old(cmds)@) + removes_of(
            chain_handles(nodes@, start as int, n as nat),
        ),
{
    let total: usize = nodes.len();
    let mut i: usize = start;
    let mut t: usize = 0;
    proof {
        assert(cmd_views(cmds@) + removes_of(chain_handles(nodes@, start as int, n as nat))
            == cmd_views(old(cmds)@) + removes_of(chain_handles(nodes@, start as int, n as nat)));
    }
    while t < n
        invariant
            t <= n,
            total == nodes@.len(),
            chain_wf(nodes@, i as int, (n - t) as nat, end),
            cmd_views(cmds@) + removes_of(chain_handles(nodes@, i as int, (n - t) as nat))
                == cmd_views(old(cmds)@) + removes_of(
                chain_handles(nodes@, start as int, n as nat),
            ),
        decreases n - t,
    {
        let h: u64 = nodes[i].handle;
        let ghost before = cmds@;
        cmds.push(Command::Remove { handle: h });
        proof {
            lemma_cmd_views_push(before, Command::Remove { handle: h });
            let hs = chain_handles(nodes@, i as int, (n - t) as nat);
            let rest = chain_handles(nodes@, i as int + nodes@[i as int].span, (n - t - 1) as nat);
            assert(hs == seq![h] + rest);
            assert(removes_of(hs) =~= seq![CommandModel::Remove { handle: h }] + removes_of(
                rest,
            ));
            assert(cmd_views(cmds@) + removes_of(rest) =~= cmd_views(before) + removes_of(hs));
        }
        proof {
            assert(i + nodes@[i as int].span <= end && end <= nodes@.len());
        }
        i = i + nodes[i].span;
        t = t + 1;
    }
    proof {
        assert(chain_handles(nodes@, i as int, 0) =~= Seq::<u64>::empty());
        assert(removes_of(Seq::<u64>::empty()) =~= Seq::<CommandModel>::empty());
        assert(cmd_views(cmds@) + Seq::<CommandModel>::empty() =~= cmd_views(cmds@));
    }
}

/// One `close` step: the innermost level exits.  Old siblings never
/// re-declared have disappeared and get remove commands; the parent record
/// is finalized with the subtree's span and the confirmed arity; and if
/// this level's direct children changed, a reorder command carries their
/// final order to the backend.
pub open spec fn spec_close(m: PassState) -> PassState {
    let sc = top(m);
    let removed = removes_of(chain_handles(m.old, sc.old_start as int, sc.old_rem as nat));
    let rec0 = m.out[sc.new_parent as int];
    let patched = m.out.update(
        sc.new_parent as int,
        Child { span: (m.out.len() - sc.new_parent) as usize, arity: sc.count, ..rec0 },
    );
    let order = chain_handles(m.out, sc.new_parent + 1, sc.count as nat);
    let reorder: Seq<CommandModel> = if sc.changed {
        seq![CommandModel::Reorder { parent: rec0.handle, order }]
    } else {
        Seq::empty()
    };
    PassState { out: patched, scopes: m.scopes.drop_last(), cmds: m.cmds + removed + reorder, ..m }
}

/// Closing the root level: the same, except that the sentinel is patched
/// and no reorder command is addressed to it.  Gives the rebuilt store's
/// records and the final command sequence.
pub open spec fn spec_finish(m: PassState) -> (Seq<Child>, Seq<CommandModel>) {
    let sc = top(m);
    let removed = removes_of(chain_handles(m.old, sc.old_start as int, sc.old_rem as nat));
    let rec0 = m.out[0];
    let patched = m.out.update(
        0,
        Child { span: m.out.len() as usize, arity: sc.count, ..rec0 },
    );
    (patched, m.cmds + removed)
}

/// Parent slots grow strictly along the stack of open levels.
proof fn lemma_parent_monotone(m: PassState, a: int, b: int)
    requires
        pass_inv(m),
        0 <= a <= b < m.scopes.len(),
    ensures
        m.scopes[a].new_parent + (b - a) <= m.scopes[b].new_parent,
    decreases b - a,
{
    if a < b {
        assert(scope_inv(m, a));
        lemma_chain_count(
            m.out,
            m.scopes[a].new_parent + 1,
            (m.scopes[a].count - 1) as nat,
            m.scopes[a + 1].new_parent as int,
        );
        lemma_parent_monotone(m, a + 1, b);
    }
}

/// `close` keeps the pass invariant and exits one level.
pub proof fn lemma_close_inv(m: PassState)
    requires
        pass_inv(m),
        m.scopes.len() >= 2,
    ensures
        pass_inv(spec_close(m)),
        spec_close(m).scopes.len() == m.scopes.len() - 1,
{
    let sc = top(m);
    let last = m.scopes.len() - 1;
    let m1 = spec_close(m);
    let pp = sc.new_parent as int;
    assert(scope_inv(m, last));
    assert(scope_inv(m, last - 1));
    let p = m.scopes[last - 1];
    assert forall|t: int| 0 <= t < m1.scopes.len() implies #[trigger] scope_inv(m1, t) by {
        assert(scope_inv(m, t));
        assert(m1.scopes[t] == m.scopes[t]);
        if t < last - 1 {
            assert(m1.scopes[t + 1].new_parent == m.scopes[t + 1].new_parent);
            lemma_parent_monotone(m, t + 1, last);
            lemma_chain_agree(
                m.out,
                m1.out,
                m.scopes[t].new_parent + 1,
                (m.scopes[t].count - 1) as nat,
                m.scopes[t + 1].new_parent as int,
            );
        } else {
            // the level below the closed one becomes the innermost level:
            // its confirmed chain is extended by the record just finished
            lemma_chain_agree(
                m.out,
                m1.out,
                p.new_parent + 1,
                (p.count - 1) as nat,
                pp,
            );
            lemma_chain_agree(m.out, m1.out, pp + 1, sc.count as nat, m.out.len() as int);
            assert(m1.out[pp].span == m.out.len() - pp);
            assert(chain_wf(m1.out, pp + 1, m1.out[pp].arity as nat, pp + m1.out[pp].span));
            lemma_chain_append(m1.out, p.new_parent + 1, (p.count - 1) as nat, pp, m1.out.len() as int);
        }
    }
}

impl Pass {
    /// Reconcile one child of the current level: match `uid` among the
    /// unvisited old siblings or create a fresh node, emitting the removal
    /// of every sibling skipped on the way.  Opens the child's own level;
    /// the caller must `close` it.  Returns the node's backend handle.
    pub fn declare(&mut self, uid: u64) -> (h: u64)
        requires
            pass_inv(old(self)@),
            old(self)@.next < u64::MAX,
        ensures
            final(self)@ == spec_declare(old(self)@, uid, false),
            pass_inv(final(self)@),
            final(self)@.scopes.len() == old(self)@.scopes.len() + 1,
            h == declared_handle(old(self)@, uid),
    {
        self.declare_dynamic(uid, false)
    }

    /// Like `declare`, but when the node already exists and `changed` is
    /// true, reissue its backend content without touching identity or
    /// subtree.
    pub fn declare_dynamic(&mut self, uid: u64, changed: bool) -> (h: u64)
        requires
            pass_inv(old(self)@),
            old(self)@.next < u64::MAX,
        ensures
            final(self)@ == spec_declare(old(self)@, uid, changed),
            pass_inv(final(self)@),
            final(self)@.scopes.len() == old(self)@.scopes.len() + 1,
            h == declared_handle(old(self)@, uid),
    {
        let ghost m0 = self@;
        let depth: usize = self.scopes.len();
        let sc: Scope = self.scopes[depth - 1];
        proof {
            assert(scope_inv(m0, depth - 1));
            lemma_chain_count(m0.out, sc.new_parent + 1, sc.count as nat, m0.out.len() as int);
        }
        let r = scan_level(&self.old, sc.old_start, sc.old_rem, uid, Ghost(sc.old_end@));
        let pos: usize = self.out.len();
        match r {
            Option::Some((k, j)) => {
                proof {
                    lemma_scan_split(
                        m0.old,
                        sc.old_start as int,
                        sc.old_rem as nat,
                        sc.old_end@,
                        uid,
                    );
                    lemma_chain_count(m0.old, j as int, (sc.old_rem - k) as nat, sc.old_end@);
                }
                emit_removes(&self.old, sc.old_start, k, Ghost(j as int), &mut self.cmds);
                let rec: Child = self.old[j];
                if changed {
                    let ghost before = self.cmds@;
                    self.cmds.push(Command::Update { handle: rec.handle });
                    proof {
                        lemma_cmd_views_push(before, Command::Update { handle: rec.handle });
                    }
                }
                self.out.push(Child { uid, handle: rec.handle, span: 1, arity: 0 });
                self.scopes.set(
                    depth - 1,
                    Scope {
                        old_start: j + rec.span,
                        old_rem: sc.old_rem - k - 1,
                        count: sc.count + 1,
                        changed: sc.changed || k > 0,
                        ..sc
                    },
                );
                self.scopes.push(
                    Scope {
                        old_start: j + 1,
                        old_rem: rec.arity,
                        old_end: Ghost(j as int + rec.span as int),
                        new_parent: pos,
                        count: 0,
                        changed: false,
                        entry: sc.entry,
                    },
                );
                proof {
                    vstd::std_specs::vec::axiom_spec_len(&self.out);
                    assert(m0.out.len() < usize::MAX);
                    lemma_declare_inv(m0, uid, changed);
                    let m1 = spec_declare(m0, uid, changed);
                    if !changed {
                        assert(self@.cmds =~= m0.cmds + removes_of(
                            chain_handles(m0.old, sc.old_start as int, k as nat),
                        ) + Seq::<CommandModel>::empty());
                    }
                    assert(self@ =~= m1);
                }
                rec.handle
            },
            Option::None => {
                let h: u64 = self.next_handle;
                let ghost before = self.cmds@;
                self.cmds.push(Command::Create { handle: h, entry: sc.entry });
                proof {
                    lemma_cmd_views_push(before, Command::Create { handle: h, entry: sc.entry });
                }
                self.next_handle = h + 1;
                self.out.push(Child { uid, handle: h, span: 1, arity: 0 });
                self.scopes.set(
                    depth - 1,
                    Scope { count: sc.count + 1, changed: true, ..sc },
                );
                self.scopes.push(
                    Scope {
                        old_start: sc.old_start,
                        old_rem: 0,
                        old_end: Ghost(sc.old_start as int),
                        new_parent: pos,
                        count: 0,
                        changed: false,
                        entry: false,
                    },
                );
                proof {
                    vstd::std_specs::vec::axiom_spec_len(&self.out);
                    assert(m0.out.len() < usize::MAX);
                    lemma_declare_inv(m0, uid, changed);
                    assert(self@ =~= spec_declare(m0, uid, changed));
                }
                h
            },
        }
    }

    /// Exit the innermost level.  Old siblings that were never re-declared
    /// are removed, the enclosing record's span and arity are finalized,
    /// and — when this level's direct children changed — a reorder command
    /// carries the final child order to the backend.
    pub fn close(&mut self)
        requires
            pass_inv(old(self)@),
            old(self)@.scopes.len() >= 2,
        ensures
            final(self)@ == spec_close(old(self)@),
            pass_inv(final(self)@),
            final(self)@.scopes.len() == old(self)@.scopes.len() - 1,
    {
        let ghost m0 = self@;
        let depth: usize = self.scopes.len();
        let sc: Scope = self.scopes[depth - 1];
        proof {
            assert(scope_inv(m0, depth - 1));
        }
        emit_removes(&self.old, sc.old_start, sc.old_rem, Ghost(sc.old_end@), &mut self.cmds);
        let pos: usize = sc.new_parent;
        let len: usize = self.out.len();
        let rec0: Child = self.out[pos];
        if sc.changed {
            let mut order = HandleList::new();
            let mut i: usize = pos + 1;
            let mut t: usize = 0;
            proof {
                assert(svec::elems(order) + chain_handles(
                    m0.out,
                    pos + 1,
                    sc.count as nat,
                ) =~= chain_handles(m0.out, pos + 1, sc.count as nat));
            }
            while t < sc.count
                invariant
                    t <= sc.count,
                    len == self.out.len(),
                    self@ == m0 || self.out@ == m0.out,
                    self.out@ == m0.out,
                    chain_wf(m0.out, i as int, (sc.count - t) as nat, m0.out.len() as int),
                    svec::elems(order) + chain_handles(m0.out, i as int, (sc.count - t) as nat)
                        == chain_handles(m0.out, pos + 1, sc.count as nat),
                decreases sc.count - t,
            {
                let h: u64 = self.out[i].handle;
                let ghost before = svec::elems(order);
                order.push(h);
                proof {
                    let rest = chain_handles(
                        m0.out,
                        i as int + m0.out[i as int].span,
                        (sc.count - t - 1) as nat,
                    );
                    assert(chain_handles(m0.out, i as int, (sc.count - t) as nat) == seq![h]
                        + rest);
                    assert(svec::elems(order) + rest =~= before + (seq![h] + rest));
                    assert(i + m0.out[i as int].span <= m0.out.len());
                    vstd::std_specs::vec::axiom_spec_len(&self.out);
                }
                i = i + self.out[i].span;
                t = t + 1;
            }
            proof {
                assert(chain_handles(m0.out, i as int, 0) =~= Seq::<u64>::empty());
                assert(svec::elems(order) + Seq::<u64>::empty() =~= svec::elems(order));
            }
            let ghost before_cmds = self.cmds@;
            self.cmds.push(Command::Reorder { parent: rec0.handle, order });
            proof {
                lemma_cmd_views_push(
                    before_cmds,
                    Command::Reorder { parent: rec0.handle, order },
                );
            }
        }
        self.out.set(pos, Child { span: len - pos, arity: sc.count, ..rec0 });
        self.scopes.pop();
        proof {
            lemma_close_inv(m0);
            if sc.changed {
                assert(self@.cmds =~= m0.cmds + removes_of(
                    chain_handles(m0.old, sc.old_start as int, sc.old_rem as nat),
                ) + seq![
                    CommandModel::Reorder {
                        parent: m0.out[sc.new_parent as int].handle,
                        order: chain_handles(m0.out, sc.new_parent + 1, sc.count as nat),
                    },
                ]);
            } else {
                assert(self@.cmds =~= m0.cmds + removes_of(
                    chain_handles(m0.old, sc.old_start as int, sc.old_rem as nat),
                ) + Seq::<CommandModel>::empty());
            }
            assert(self@ =~= spec_close(m0));
        }
    }

    /// Close the root level and end the pass: returns the rebuilt store
    /// and the full command sequence for the external driver to apply.
    pub fn finish(self) -> (r: (Store, Vec<Command>))
        requires
            pass_inv(self@),
            self@.scopes.len() == 1,
        ensures
            r.0@ == spec_finish(self@).0,
            cmd_views(r.1@) == spec_finish(self@).1,
            r.0.next() == self@.next,
            r.0.wf(),
    {
        let ghost m0 = self@;
        let Pass { old: old_nodes, mut out, scopes, mut cmds, next_handle } = self;
        let sc: Scope = scopes[0];
        proof {
            assert(scope_inv(m0, 0));
        }
        emit_removes(&old_nodes, sc.old_start, sc.old_rem, Ghost(sc.old_end@), &mut cmds);
        let len: usize = out.len();
        let rec0: Child = out[0];
        out.set(0, Child { span: len, arity: sc.count, ..rec0 });
        let store = Store { nodes: out, next_handle };
        proof {
            assert(store@ =~= spec_finish(m0).0);
            assert(cmd_views(cmds@) =~= spec_finish(m0).1);
            lemma_chain_agree(m0.out, store@, 1, sc.count as nat, m0.out.len() as int);
        }
        (store, cmds)
    }

    /// How many levels are open; `declare` opens one, `close` exits one.
    pub fn depth(&self) -> (r: usize)
        ensures
            r == self@.scopes.len(),
    {
        self.scopes.len()
    }

    /// Commands emitted so far.
    pub fn command_count(&self) -> (r: usize)
        ensures
            r == self@.cmds.len(),
    {
        self.cmds.len()
    }
}

} // verus!
