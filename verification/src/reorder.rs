//! Ordered reinsertion.
//!
//! After a level's cursor scope exits, the final declared order of direct
//! child handles is diffed against the backend's actual child order.  The
//! walk keeps an `offset` into the existing order: a target handle found at
//! or after `offset` is already correctly positioned relative to the prior
//! placements and costs nothing; one that is not found is explicitly
//! inserted at `offset`.  Untouched runs therefore receive no command.

use vstd::prelude::*;
use crate::svec::HandleList;
use crate::svec;

verus! {

/// One explicit backend reorder command: insert (or move) `handle` so that
/// it sits at position `index` of its parent's child list.
#[derive(Clone, Copy, PartialEq, Eq, Structural, Debug)]
pub struct ChildInsert {
    pub handle: u64,
    pub index: usize,
}

/// First position of `h` in `s` at or after `from`, if any.
pub open spec fn spec_find_from(s: Seq<u64>, from: int, h: u64) -> Option<int>
    decreases s.len() - from,
{
    if from < 0 || s.len() <= from {
        Option::None
    } else if s[from] == h {
        Option::Some(from)
    } else {
        spec_find_from(s, from + 1, h)
    }
}

/// The insert commands the reinsertion walk emits for reconciling
/// `existing` to `target`, starting at `offset`, as (handle, index) pairs.
pub open spec fn spec_reinserts(existing: Seq<u64>, target: Seq<u64>, offset: int) -> Seq<
    (u64, int),
>
    decreases target.len(),
{
    if target.len() == 0 {
        Seq::empty()
    } else {
        let h = target[0];
        match spec_find_from(existing, offset, h) {
            Option::Some(i) => spec_reinserts(existing, target.drop_first(), i + 1),
            Option::None => seq![(h, offset)] + spec_reinserts(
                existing,
                target.drop_first(),
                offset + 1,
            ),
        }
    }
}

fn find_from(existing: &Vec<u64>, from: usize, h: u64) -> (r: Option<usize>)
    ensures
        match r {
            Option::Some(i) => from <= i < existing@.len() && spec_find_from(
                existing@,
                from as int,
                h,
            ) == Option::Some(i as int),
            Option::None => spec_find_from(existing@, from as int, h) == Option::<int>::None,
        },
{
    let n: usize = existing.len();
    if from >= n {
        return Option::None;
    }
    let mut i: usize = from;
    while i < n
        invariant
            from <= i <= n,
            n == existing@.len(),
            spec_find_from(existing@, from as int, h) == spec_find_from(existing@, i as int, h),
        decreases n - i,
    {
        if existing[i] == h {
            return Option::Some(i);
        }
        i = i + 1;
    }
    Option::None
}

/// Emit the minimal insert commands that make the backend's `existing`
/// child order match the declared `target` order.
pub fn insert_children_in_order(existing: &Vec<u64>, target: &HandleList) -> (r: Vec<ChildInsert>)
    requires
        existing@.len() + svec::elems(*target).len() <= usize::MAX,
    ensures
        r@.map_values(|c: ChildInsert| (c.handle, c.index as int)) == spec_reinserts(
            existing@,
            svec::elems(*target),
            0,
        ),
{
    let ghost tgt = svec::elems(*target);
    let tn: usize = target.len();
    let mut r: Vec<ChildInsert> = Vec::new();
    let mut offset: usize = 0;
    let mut t: usize = 0;
    proof {
        assert(tgt.subrange(0, tn as int) =~= tgt);
        assert(r@.map_values(|c: ChildInsert| (c.handle, c.index as int)) =~= Seq::<
            (u64, int),
        >::empty());
    }
    while t < tn
        invariant
            t <= tn,
            tgt == svec::elems(*target),
            tn == tgt.len(),
            offset <= existing@.len() + t,
            existing@.len() + tgt.len() <= usize::MAX,
            spec_reinserts(existing@, tgt, 0) == r@.map_values(
                |c: ChildInsert| (c.handle, c.index as int),
            ) + spec_reinserts(existing@, tgt.subrange(t as int, tn as int), offset as int),
        decreases tn - t,
    {
        let h: u64 = target.get(t);
        let ghost rest = tgt.subrange(t as int, tn as int);
        proof {
            assert(rest[0] == tgt[t as int]);
            assert(rest.drop_first() =~= tgt.subrange(t as int + 1, tn as int));
        }
        match find_from(existing, offset, h) {
            Option::Some(i) => {
                offset = i + 1;
            },
            Option::None => {
                let ghost r0 = r@;
                r.push(ChildInsert { handle: h, index: offset });
                proof {
                    let f = |c: ChildInsert| (c.handle, c.index as int);
                    assert(r@.map_values(f) =~= r0.map_values(f).push((h, offset as int)));
                    assert(r0.map_values(f) + (seq![(h, offset as int)] + spec_reinserts(
                        existing@,
                        rest.drop_first(),
                        offset as int + 1,
                    )) =~= r@.map_values(f) + spec_reinserts(
                        existing@,
                        rest.drop_first(),
                        offset as int + 1,
                    ));
                }
                offset = offset + 1;
            },
        }
        t = t + 1;
    }
    proof {
        assert(tgt.subrange(tn as int, tn as int) =~= Seq::<u64>::empty());
        assert(r@.map_values(|c: ChildInsert| (c.handle, c.index as int)) + Seq::<
            (u64, int),
        >::empty() =~= r@.map_values(|c: ChildInsert| (c.handle, c.index as int)));
    }
    r
}

/// Idempotence of reinsertion: when the declared order already equals the
/// backend order, the walk emits no command at all.
pub proof fn lemma_reinserts_identity(s: Seq<u64>)
    ensures
        spec_reinserts(s, s, 0) == Seq::<(u64, int)>::empty(),
{
    lemma_reinserts_identity_from(s, 0);
    assert(s.subrange(0, s.len() as int) =~= s);
}

proof fn lemma_reinserts_identity_from(s: Seq<u64>, k: int)
    requires
        0 <= k <= s.len(),
    ensures
        spec_reinserts(s, s.subrange(k, s.len() as int), k) == Seq::<(u64, int)>::empty(),
    decreases s.len() - k,
{
    let t = s.subrange(k, s.len() as int);
    if t.len() > 0 {
        assert(t[0] == s[k]);
        assert(spec_find_from(s, k, s[k]) == Option::Some(k));
        assert(t.drop_first() =~= s.subrange(k + 1, s.len() as int));
        lemma_reinserts_identity_from(s, k + 1);
    }
}

/// Append stability of reinsertion: declaring the existing order plus one
/// genuinely new handle emits exactly one command, appending the new handle
/// at the end; the handles already in place receive none.
pub proof fn lemma_reinserts_append(s: Seq<u64>, d: u64)
    requires
        !s.contains(d),
    ensures
        spec_reinserts(s, s + seq![d], 0) == seq![(d, s.len() as int)],
{
    lemma_reinserts_append_from(s, d, 0);
    assert(s.subrange(0, s.len() as int) + seq![d] =~= s + seq![d]);
}

proof fn lemma_reinserts_append_from(s: Seq<u64>, d: u64, k: int)
    requires
        0 <= k <= s.len(),
        !s.contains(d),
    ensures
        spec_reinserts(s, s.subrange(k, s.len() as int) + seq![d], k) == seq![
            (d, s.len() as int),
        ],
    decreases s.len() - k,
{
    let t = s.subrange(k, s.len() as int) + seq![d];
    if k < s.len() {
        assert(t[0] == s[k]);
        assert(spec_find_from(s, k, s[k]) == Option::Some(k));
        assert(t.drop_first() =~= s.subrange(k + 1, s.len() as int) + seq![d]);
        lemma_reinserts_append_from(s, d, k + 1);
    } else {
        assert(t[0] == d);
        lemma_find_absent(s, d, k);
        assert(t.drop_first() =~= Seq::<u64>::empty());
        assert(spec_reinserts(s, t.drop_first(), k + 1) =~= Seq::<(u64, int)>::empty());
        assert(spec_reinserts(s, t, k) =~= seq![(d, k)] + Seq::<(u64, int)>::empty());
        assert(seq![(d, k)] + Seq::<(u64, int)>::empty() =~= seq![(d, k)]);
    }
}

proof fn lemma_find_absent(s: Seq<u64>, h: u64, from: int)
    requires
        !s.contains(h),
        0 <= from,
    ensures
        spec_find_from(s, from, h) == Option::<int>::None,
    decreases s.len() - from,
{
    if from < s.len() {
        assert(s[from] != h);
        lemma_find_absent(s, h, from + 1);
    }
}

/// `t` can be picked out of `e`, in order, at positions at or after `from`.
pub open spec fn is_ordered_selection(e: Seq<u64>, t: Seq<u64>, from: int) -> bool
    decreases t.len(),
{
    if t.len() == 0 {
        true
    } else {
        exists|j: int|
            from <= j < e.len() && e[j] == t[0] && is_ordered_selection(e, t.drop_first(), j + 1)
    }
}

/// Minimal reorder: a declared order that is an in-order selection of the
/// backend order — as after a pure removal in the middle — needs no
/// reorder command at all.
pub proof fn lemma_reinserts_selection(e: Seq<u64>, t: Seq<u64>, from: int)
    requires
        0 <= from,
        is_ordered_selection(e, t, from),
    ensures
        spec_reinserts(e, t, from) == Seq::<(u64, int)>::empty(),
    decreases t.len(),
{
    if t.len() > 0 {
        let j = choose|j: int|
            from <= j < e.len() && e[j] == t[0] && is_ordered_selection(e, t.drop_first(), j + 1);
        lemma_find_first(e, t[0], from, j);
        let f = spec_find_from(e, from, t[0])->Some_0;
        lemma_selection_weaken(e, t.drop_first(), j + 1, f + 1);
        lemma_reinserts_selection(e, t.drop_first(), f + 1);
    }
}

/// The first occurrence is no later than any occurrence.
proof fn lemma_find_first(e: Seq<u64>, h: u64, from: int, j: int)
    requires
        0 <= from <= j < e.len(),
        e[j] == h,
    ensures
        spec_find_from(e, from, h) matches Option::Some(f) && from <= f <= j,
    decreases j - from,
{
    if e[from] != h {
        lemma_find_first(e, h, from + 1, j);
    }
}

/// Allowing earlier positions keeps a selection valid.
proof fn lemma_selection_weaken(e: Seq<u64>, t: Seq<u64>, a: int, b: int)
    requires
        is_ordered_selection(e, t, a),
        b <= a,
    ensures
        is_ordered_selection(e, t, b),
    decreases t.len(),
{
    if t.len() > 0 {
        let j = choose|j: int|
            a <= j < e.len() && e[j] == t[0] && is_ordered_selection(e, t.drop_first(), j + 1);
        assert(b <= j < e.len() && e[j] == t[0] && is_ordered_selection(e, t.drop_first(), j + 1));
    }
}

} // verus!
