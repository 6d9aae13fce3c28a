//! Lemmas about parent chains: monotonicity of grounding fuel, absence of
//! cycles, and preservation of grounding across the local pointer edits
//! the tree operations perform.

use vstd::prelude::*;
use crate::item::ItemIdx;
use crate::state::Layout;

verus! {

/// Grounding within `n1` steps implies grounding within any larger fuel.
pub proof fn lemma_grounded_mono<W, C, CCtor>(
    s: Layout<W, C, CCtor>,
    x: ItemIdx,
    n1: nat,
    n2: nat,
)
    requires
        s.grounded(x, n1),
        n1 <= n2,
    ensures
        s.grounded(x, n2),
    decreases n1,
{
    match s.parent_of(x) {
        Option::None => {},
        Option::Some(p) => {
            lemma_grounded_mono(s, ItemIdx::Container(p), (n1 - 1) as nat, (n2 - 1) as nat);
        },
    }
}

/// Walking `k` steps up from a grounded item consumes at most its fuel,
/// and lands on an item grounded by the remainder.
pub proof fn lemma_up_reaches_grounded<W, C, CCtor>(
    s: Layout<W, C, CCtor>,
    a: ItemIdx,
    b: ItemIdx,
    k: nat,
    n: nat,
)
    requires
        s.grounded(a, n),
        s.up_reaches(a, b, k),
    ensures
        k <= n,
        s.grounded(b, (n - k) as nat),
    decreases k,
{
    if k > 0 {
        let p = s.parent_of(a)->Some_0;
        lemma_up_reaches_grounded(s, ItemIdx::Container(p), b, (k - 1) as nat, (n - 1) as nat);
    }
}

/// A grounded item is not its own proper ancestor.
pub proof fn lemma_no_cycle<W, C, CCtor>(s: Layout<W, C, CCtor>, x: ItemIdx, n: nat, k: nat)
    requires
        s.grounded(x, n),
        k > 0,
    ensures
        !s.up_reaches(x, x, k),
    decreases n,
{
    if s.up_reaches(x, x, k) {
        lemma_up_reaches_grounded(s, x, x, k, n);
        lemma_no_cycle(s, x, (n - k) as nat, k);
    }
}

/// Any positive number of parent steps lands on a container.
pub proof fn lemma_up_reaches_container<W, C, CCtor>(
    s: Layout<W, C, CCtor>,
    a: ItemIdx,
    b: ItemIdx,
    k: nat,
)
    requires
        s.up_reaches(a, b, k),
        k > 0,
    ensures
        b is Container,
    decreases k,
{
    let p = s.parent_of(a)->Some_0;
    assert(s.up_reaches(ItemIdx::Container(p), b, (k - 1) as nat));
    if k == 1 {
        assert(b == ItemIdx::Container(p));
    } else {
        lemma_up_reaches_container(s, ItemIdx::Container(p), b, (k - 1) as nat);
    }
}

/// Grounding survives any edit that only removes parent pointers (for
/// example tombstoning items, or adding fresh parentless ones).
pub proof fn lemma_grounded_drop<W, C, CCtor>(
    s1: Layout<W, C, CCtor>,
    s2: Layout<W, C, CCtor>,
    x: ItemIdx,
    n: nat,
)
    requires
        s1.grounded(x, n),
        forall|y: ItemIdx| #![auto] s2.parent_of(y) == s1.parent_of(y) || s2.parent_of(y) is None,
    ensures
        s2.grounded(x, n),
    decreases n,
{
    match s2.parent_of(x) {
        Option::None => {},
        Option::Some(p) => {
            lemma_grounded_drop(s1, s2, ItemIdx::Container(p), (n - 1) as nat);
        },
    }
}

/// Grounding survives re-pointing one item `t` at its grandparent, as a
/// fuse does; other items keep (or lose) their pointers.
pub proof fn lemma_grounded_skip<W, C, CCtor>(
    s1: Layout<W, C, CCtor>,
    s2: Layout<W, C, CCtor>,
    t: ItemIdx,
    f: usize,
    x: ItemIdx,
    n: nat,
)
    requires
        s1.grounded(x, n),
        s1.parent_of(t) == Option::Some(f),
        s2.parent_of(t) == s1.parent_of(ItemIdx::Container(f)),
        forall|y: ItemIdx| #![auto]
            y != t ==> s2.parent_of(y) == s1.parent_of(y) || s2.parent_of(y) is None,
    ensures
        s2.grounded(x, n),
    decreases n,
{
    if x == t {
        assert(n > 0 && s1.grounded(ItemIdx::Container(f), (n - 1) as nat));
        match s1.parent_of(ItemIdx::Container(f)) {
            Option::None => {},
            Option::Some(gp) => {
                assert(n - 1 > 0 && s1.grounded(ItemIdx::Container(gp), (n - 2) as nat));
                lemma_grounded_skip(s1, s2, t, f, ItemIdx::Container(gp), (n - 2) as nat);
                lemma_grounded_mono(s2, ItemIdx::Container(gp), (n - 2) as nat, (n - 1) as nat);
            },
        }
    } else {
        match s2.parent_of(x) {
            Option::None => {},
            Option::Some(p) => {
                lemma_grounded_skip(s1, s2, t, f, ItemIdx::Container(p), (n - 1) as nat);
            },
        }
    }
}

/// Grounding is unchanged for an item whose old parent chain avoids the
/// one re-pointed item `t`.
pub proof fn lemma_grounded_avoid<W, C, CCtor>(
    s1: Layout<W, C, CCtor>,
    s2: Layout<W, C, CCtor>,
    t: ItemIdx,
    z: ItemIdx,
    m: nat,
)
    requires
        s1.grounded(z, m),
        forall|k: nat| !s1.up_reaches(z, t, k),
        forall|y: ItemIdx| #![auto] y != t ==> s2.parent_of(y) == s1.parent_of(y),
    ensures
        s2.grounded(z, m),
    decreases m,
{
    assert(!s1.up_reaches(z, t, 0));
    match s1.parent_of(z) {
        Option::None => {},
        Option::Some(p) => {
            assert forall|k: nat| !s1.up_reaches(ItemIdx::Container(p), t, k) by {
                if s1.up_reaches(ItemIdx::Container(p), t, k) {
                    assert(s1.up_reaches(z, t, (k + 1) as nat));
                }
            }
            lemma_grounded_avoid(s1, s2, t, ItemIdx::Container(p), (m - 1) as nat);
        },
    }
}

/// Grounding survives attaching one detached item `t` under a container
/// `c` that `t` was no ancestor of.
pub proof fn lemma_grounded_reattach<W, C, CCtor>(
    s1: Layout<W, C, CCtor>,
    s2: Layout<W, C, CCtor>,
    t: ItemIdx,
    c: usize,
    m: nat,
    x: ItemIdx,
    n: nat,
)
    requires
        s1.grounded(x, n),
        s1.parent_of(t) is None,
        s1.grounded(ItemIdx::Container(c), m),
        forall|k: nat| !s1.up_reaches(ItemIdx::Container(c), t, k),
        s2.parent_of(t) == Option::Some(c),
        forall|y: ItemIdx| #![auto] y != t ==> s2.parent_of(y) == s1.parent_of(y),
    ensures
        s2.grounded(x, (n + m + 1) as nat),
    decreases n,
{
    if x == t {
        lemma_grounded_avoid(s1, s2, t, ItemIdx::Container(c), m);
        lemma_grounded_mono(s2, ItemIdx::Container(c), m, (n + m) as nat);
    } else {
        match s2.parent_of(x) {
            Option::None => {},
            Option::Some(p) => {
                lemma_grounded_reattach(s1, s2, t, c, m, ItemIdx::Container(p), (n - 1) as nat);
            },
        }
    }
}

/// Chains are a function of the parent pointers alone.
pub proof fn lemma_up_reaches_frame<W, C, CCtor>(
    s1: Layout<W, C, CCtor>,
    s2: Layout<W, C, CCtor>,
    a: ItemIdx,
    b: ItemIdx,
    k: nat,
)
    requires
        s1.up_reaches(a, b, k),
        forall|y: ItemIdx| #[trigger] s2.parent_of(y) == s1.parent_of(y),
    ensures
        s2.up_reaches(a, b, k),
    decreases k,
{
    if k > 0 {
        let p = s1.parent_of(a)->Some_0;
        lemma_up_reaches_frame(s1, s2, ItemIdx::Container(p), b, (k - 1) as nat);
    }
}

/// A chain that exists after one item's parent pointer was cleared
/// already existed before.
pub proof fn lemma_up_reaches_except<W, C, CCtor>(
    s2: Layout<W, C, CCtor>,
    s1: Layout<W, C, CCtor>,
    t: ItemIdx,
    a: ItemIdx,
    k: nat,
)
    requires
        s2.up_reaches(a, t, k),
        s2.parent_of(t) is None,
        forall|y: ItemIdx| y != t ==> #[trigger] s1.parent_of(y) == s2.parent_of(y),
    ensures
        s1.up_reaches(a, t, k),
    decreases k,
{
    if k > 0 {
        assert(a != t);
        let p = s2.parent_of(a)->Some_0;
        lemma_up_reaches_except(s2, s1, t, ItemIdx::Container(p), (k - 1) as nat);
    }
}

/// In a tree where every parent pointer names a live, attached
/// container, every attached item reaches the root.
pub proof fn lemma_attached_reaches_root<W, C, CCtor>(
    s: Layout<W, C, CCtor>,
    t: ItemIdx,
    n: nat,
)
    requires
        s.grounded(t, n),
        s.attached(t),
        forall|y: ItemIdx|
            #[trigger] s.parent_of(y) matches Option::Some(q) ==> s.live_c(q as int)
                && s.attached(ItemIdx::Container(q)),
    ensures
        exists|k: nat| s.up_reaches(t, ItemIdx::Container(0), k),
    decreases n,
{
    if t == ItemIdx::Container(0) {
        assert(s.up_reaches(t, ItemIdx::Container(0), 0));
    } else {
        let p = s.parent_of(t)->Some_0;
        lemma_attached_reaches_root(s, ItemIdx::Container(p), (n - 1) as nat);
        let k = choose|k: nat| s.up_reaches(ItemIdx::Container(p), ItemIdx::Container(0), k);
        assert(s.up_reaches(t, ItemIdx::Container(0), (k + 1) as nat));
    }
}

/// A slot nothing points at cannot be reached by climbing.
pub proof fn lemma_fresh_unreachable<W, C, CCtor>(
    s: Layout<W, C, CCtor>,
    nw: usize,
    a: ItemIdx,
    k: nat,
)
    requires
        forall|y: ItemIdx| #[trigger] s.parent_of(y) != Option::Some(nw),
        k >= 1,
    ensures
        !s.up_reaches(a, ItemIdx::Container(nw), k),
    decreases k,
{
    if s.up_reaches(a, ItemIdx::Container(nw), k) {
        let p = s.parent_of(a)->Some_0;
        assert(s.up_reaches(ItemIdx::Container(p), ItemIdx::Container(nw), (k - 1) as nat));
        if k == 1 {
            assert(ItemIdx::Container(p) == ItemIdx::Container(nw));
            assert(s.parent_of(a) == Option::Some(nw));
        } else {
            lemma_fresh_unreachable(s, nw, ItemIdx::Container(p), (k - 1) as nat);
        }
    }
}

/// Grounding is unchanged for an item whose old parent chain avoids
/// every re-pointed item.
pub proof fn lemma_grounded_avoid_set<W, C, CCtor>(
    s1: Layout<W, C, CCtor>,
    s2: Layout<W, C, CCtor>,
    avoided: Set<ItemIdx>,
    z: ItemIdx,
    m: nat,
)
    requires
        s1.grounded(z, m),
        forall|a: ItemIdx, k: nat|
            avoided.contains(a) ==> !#[trigger] s1.up_reaches(z, a, k),
        forall|y: ItemIdx|
            !avoided.contains(y) ==> #[trigger] s2.parent_of(y) == s1.parent_of(y),
    ensures
        s2.grounded(z, m),
    decreases m,
{
    assert(s1.up_reaches(z, z, 0));
    assert(!avoided.contains(z));
    match s1.parent_of(z) {
        Option::None => {},
        Option::Some(p) => {
            assert forall|a: ItemIdx, k: nat|
                avoided.contains(a) implies !#[trigger] s1.up_reaches(
                ItemIdx::Container(p),
                a,
                k,
            ) by {
                if s1.up_reaches(ItemIdx::Container(p), a, k) {
                    assert(s1.up_reaches(z, a, (k + 1) as nat));
                }
            }
            lemma_grounded_avoid_set(s1, s2, avoided, ItemIdx::Container(p), (m - 1) as nat);
        },
    }
}

/// Grounding survives splicing a fresh container `nw` under a grounded
/// anchor: every member of `dset` (previously children of the anchor, or
/// parentless) now points at `nw`, and `nw` points at the anchor, whose
/// grounding in the new state is supplied.
pub proof fn lemma_grounded_splice2<W, C, CCtor>(
    s1: Layout<W, C, CCtor>,
    s2: Layout<W, C, CCtor>,
    dset: Set<ItemIdx>,
    nw: usize,
    c0p: Option<usize>,
    m2: nat,
    x: ItemIdx,
    n: nat,
)
    requires
        s1.grounded(x, n),
        x != ItemIdx::Container(nw),
        !dset.contains(ItemIdx::Container(nw)),
        forall|y: ItemIdx| #[trigger] s1.parent_of(y) != Option::Some(nw),
        forall|d: ItemIdx|
            #[trigger] dset.contains(d) ==> (s1.parent_of(d) == c0p || s1.parent_of(d) is None)
                && s2.parent_of(d) == Option::Some(nw),
        s2.parent_of(ItemIdx::Container(nw)) == c0p,
        match c0p {
            Option::Some(c0) => s2.grounded(ItemIdx::Container(c0), m2),
            Option::None => true,
        },
        forall|y: ItemIdx|
            !dset.contains(y) && y != ItemIdx::Container(nw) ==> #[trigger] s2.parent_of(y)
                == s1.parent_of(y) || s2.parent_of(y) is None,
    ensures
        s2.grounded(x, (n + m2 + 3) as nat),
    decreases n,
{
    if dset.contains(x) {
        match c0p {
            Option::None => {
                assert(s2.grounded(ItemIdx::Container(nw), (n + m2 + 2) as nat));
            },
            Option::Some(c0) => {
                lemma_grounded_mono(s2, ItemIdx::Container(c0), m2, (n + m2 + 1) as nat);
                assert(s2.grounded(ItemIdx::Container(nw), (n + m2 + 2) as nat));
            },
        }
        assert(s2.grounded(x, (n + m2 + 3) as nat));
    } else {
        match s2.parent_of(x) {
            Option::None => {},
            Option::Some(p) => {
                assert(s2.parent_of(x) == s1.parent_of(x));
                assert(n > 0 && s1.grounded(ItemIdx::Container(p), (n - 1) as nat));
                lemma_grounded_splice2(
                    s1,
                    s2,
                    dset,
                    nw,
                    c0p,
                    m2,
                    ItemIdx::Container(p),
                    (n - 1) as nat,
                );
                lemma_grounded_mono(
                    s2,
                    ItemIdx::Container(p),
                    (n + m2 + 2) as nat,
                    (n + m2 + 2) as nat,
                );
            },
        }
    }
}

} // verus!
