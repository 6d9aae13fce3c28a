//! Tree surgery: attaching and detaching children, splitting items into
//! fresh containers, moving items, fusing single-child containers, and
//! destroying subtrees.

use vstd::prelude::*;
use crate::geom::{WindowBounds, MAX_WEIGHT};
use crate::item::{Constructor, Container, Direction, ItemAndData, ItemIdx, LayoutAction, LayoutStrategy, MoveCursor, Window};
use crate::state::Layout;
use crate::ground::{
    lemma_grounded_avoid_set, lemma_grounded_drop, lemma_grounded_reattach, lemma_grounded_skip,
    lemma_no_cycle, lemma_up_reaches_frame,
};

verus! {

impl<W, C, CCtor> Layout<W, C, CCtor> {
    /// Overwrites the parent pointer of one live item.
    pub(crate) fn set_parent(&mut self, x: ItemIdx, q: Option<usize>)
        requires
            old(self).live(x),
        ensures
            match x {
                ItemIdx::Window(i) => final(self).windows@ == old(self).windows@.update(
                    i as int,
                    Option::Some(Window { parent: q, ..old(self).winat(i as int) }),
                ) && final(self).containers == old(self).containers,
                ItemIdx::Container(i) => final(self).containers@ == old(self).containers@.update(
                    i as int,
                    Option::Some(Container { parent: q, ..old(self).ctrat(i as int) }),
                ) && final(self).windows == old(self).windows,
            },
            final(self).root_bounds == old(self).root_bounds,
            final(self).default_padding == old(self).default_padding,
            final(self).cctor == old(self).cctor,
    {
        match x {
            ItemIdx::Window(w_idx) => {
                self.win_mut(w_idx).parent = q;
            },
            ItemIdx::Container(c_idx) => {
                self.ctr_mut(c_idx).parent = q;
            },
        }
    }


    /// Finds (or creates, by growing the backing array) a tombstoned
    /// container slot.
    #[verifier::rlimit(100)]
    #[verifier::spinoff_prover]
    pub(crate) fn free_container_slot(
        &mut self,
        Ghost(ex): Ghost<Option<ItemIdx>>,
        Ghost(low): Ghost<Option<int>>,
    ) -> (r: usize)
        requires
            old(self).wfx(ex, low),
        ensures
            final(self).wfx(ex, low),
            (r as int) < final(self).containers@.len(),
            !final(self).live_c(r as int),
            !old(self).live_c(r as int),
            final(self).windows == old(self).windows,
            final(self).root_bounds == old(self).root_bounds,
            final(self).default_padding == old(self).default_padding,
            final(self).cctor == old(self).cctor,
            final(self).containers@.len() >= old(self).containers@.len(),
            forall|i: int|
                0 <= i < old(self).containers@.len() ==> final(self).containers@[i] == old(self).containers@[i],
            (r as int) < old(self).containers@.len() || (r as int == old(self).containers@.len()
                && final(self).containers@.len() == old(self).containers@.len() + 1),
            forall|y: ItemIdx| final(self).parent_of(y) == old(self).parent_of(y),
    {
        let n = self.containers.len();
        let mut i: usize = 0;
        while i < n && self.containers[i].is_some()
            invariant
                *self == *old(self),
                n == self.containers@.len(),
                i <= n,
            decreases n - i,
        {
            i += 1;
        }
        if i == n {
            self.containers.push(Option::None);
        }
        proof {
            let s1 = *old(self);
            let s2 = *self;
            assert forall|y: ItemIdx| s2.parent_of(y) == s1.parent_of(y) by {}
            assert forall|i2: int| s2.live_c(i2) implies s2.ctr_ok(i2, ex, low) by {
                assert(s1.live_c(i2));
                assert(s1.ctr_ok(i2, ex, low));
                assert(s2.containers@[i2] == s1.containers@[i2]);
                assert(s2.ctrat(i2) == s1.ctrat(i2));
                assert forall|j: int| 0 <= j < s2.kids(i2).len() implies s2.entry_ok(i2, j) by {
                    assert(s1.entry_ok(i2, j));
                }
                if i2 != 0 && ex != Option::Some(ItemIdx::Container(i2 as usize)) {
                    let p = s1.ctrat(i2).parent->Some_0;
                    assert(s1.has_entry(p as int, ItemIdx::Container(i2 as usize)));
                    assert(s2.containers@[p as int] == s1.containers@[p as int]);
                    assert(s2.kids(p as int) == s1.kids(p as int));
                }
            }
            assert forall|i2: int| s2.live_w(i2) implies s2.win_ok(i2, ex) by {
                assert(s1.live_w(i2));
                assert(s2.winat(i2) == s1.winat(i2));
                assert(s1.win_ok(i2, ex));
                if s1.winat(i2).parent is Some && ex != Option::Some(ItemIdx::Window(i2 as usize)) {
                    let p = s1.winat(i2).parent->Some_0;
                    assert(s1.live_c(p as int));
                    assert(s2.containers@[p as int] == s1.containers@[p as int]);
                    assert(s2.kids(p as int) == s1.kids(p as int));
                }
            }
            assert forall|x: ItemIdx| s2.live(x) implies s2.rooted(x) by {
                assert(s1.live(x));
                let nn = choose|nn: nat| s1.grounded(x, nn);
                lemma_grounded_drop(s1, s2, x, nn);
            }
        }
        i
    }

    /// Inserts the detached item `x` into container `p`'s child list at
    /// `idx` with the given weight and points `x` back at `p`,
    /// restoring full attachment.
    #[verifier::rlimit(100)]
    #[verifier::spinoff_prover]
    pub(crate) fn attach(
        &mut self,
        x: ItemIdx,
        p: usize,
        idx: usize,
        weight: usize,
        Ghost(low): Ghost<Option<int>>,
    )
        requires
            old(self).wfx(Option::Some(x), low),
            old(self).live_c(p as int),
            idx <= old(self).kids(p as int).len(),
            1 <= weight <= MAX_WEIGHT,
            forall|k: nat| !old(self).up_reaches(ItemIdx::Container(p), x, k),
        ensures
            final(self).wfx(Option::None, low),
            final(self).kids(p as int) == old(self).kids(p as int).insert(
                idx as int,
                (weight, x),
            ),
            final(self).parent_of(x) == Option::Some(p),
            forall|y: ItemIdx| y != x ==> final(self).parent_of(y) == old(self).parent_of(y),
            final(self).containers@.len() == old(self).containers@.len(),
            final(self).windows@.len() == old(self).windows@.len(),
            forall|i: int| final(self).live_c(i) == old(self).live_c(i),
            forall|i: int| final(self).live_w(i) == old(self).live_w(i),
            forall|i: int|
                old(self).live_c(i) && i != p && ItemIdx::Container(i as usize) != x ==> final(self).ctrat(i) == old(self).ctrat(i),
            forall|i: int|
                old(self).live_w(i) && ItemIdx::Window(i as usize) != x ==> final(self).winat(i)
                    == old(self).winat(i),
            final(self).ctrat(p as int) == (Container {
                children: final(self).ctrat(p as int).children,
                ..old(self).ctrat(p as int)
            }),
            forall|y: ItemIdx| old(self).live(y) ==> final(self).bounds_of(y) == old(self).bounds_of(y),
            final(self).root_bounds == old(self).root_bounds,
            final(self).default_padding == old(self).default_padding,
            final(self).cctor == old(self).cctor,
    {
        let cap_c = self.containers.len();
        let cap_w = self.windows.len();
        proof {
            assert(old(self).containers@.len() == cap_c);
            assert(old(self).windows@.len() == cap_w);
            assert(!old(self).up_reaches(ItemIdx::Container(p), x, 0));
            assert(x != ItemIdx::Container(p));
        }
        self.ctr_mut(p).children.insert(idx, (weight, x));
        let ghost s_mid = *self;
        self.set_parent(x, Option::Some(p));
        proof {
            let s1 = *old(self);
            let s2 = *self;
            assert(s2.kids(p as int) == s1.kids(p as int).insert(idx as int, (weight, x)));
            assert forall|y: ItemIdx| y != x implies s2.parent_of(y) == s1.parent_of(y) by {}
            // No old entry anywhere names `x` (its parent pointer was
            // `None`), so the shifted entries stay sound.
            assert forall|i2: int, j: int|
                s1.live_c(i2) && 0 <= j < s1.kids(i2).len() implies #[trigger] s1.kids(
                i2,
            )[j].1 != x by {
                assert(s1.entry_ok(i2, j));
            }
            assert forall|i2: int| s2.live_c(i2) implies s2.ctr_ok(i2, Option::None, low) by {
                assert(s1.live_c(i2));
                assert(s1.ctr_ok(i2, Option::Some(x), low));
                if i2 == p as int {
                    assert(s2.ctrat(i2) == Container {
                        children: s2.ctrat(i2).children,
                        ..s1.ctrat(i2)
                    });
                } else if ItemIdx::Container(i2 as usize) == x {
                    let xi = x->Container_0;
                    assert(i2 == xi as int);
                    assert(s2.ctrat(i2) == Container {
                        parent: Option::Some(p),
                        ..s1.ctrat(i2)
                    });
                } else {
                    assert(s2.ctrat(i2) == s1.ctrat(i2));
                }
                assert forall|j: int| 0 <= j < s2.kids(i2).len() implies s2.entry_ok(i2, j) by {
                    if i2 == p as int {
                        if j < idx {
                            assert(s2.kids(i2)[j] == s1.kids(i2)[j]);
                            assert(s1.entry_ok(i2, j));
                        } else if j == idx {
                            assert(s2.kids(i2)[j] == (weight, x));
                        } else {
                            assert(s2.kids(i2)[j] == s1.kids(i2)[j - 1]);
                            assert(s1.entry_ok(i2, j - 1));
                        }
                    } else {
                        assert(s2.kids(i2) == s1.kids(i2));
                        assert(s1.entry_ok(i2, j));
                    }
                }
                assert forall|j1: int, j2: int|
                    0 <= j1 < j2 < s2.kids(i2).len() implies s2.kids(i2)[j1].1 != s2.kids(
                    i2,
                )[j2].1 by {
                    if i2 == p as int {
                        assert(s1.ctr_ok(i2, Option::Some(x), low));
                        if j1 < idx && j2 < idx {
                        } else if j1 < idx && j2 == idx {
                            assert(s1.kids(i2)[j1].1 != x);
                        } else if j1 < idx {
                            assert(s2.kids(i2)[j2] == s1.kids(i2)[j2 - 1]);
                        } else if j1 == idx {
                            assert(s2.kids(i2)[j2] == s1.kids(i2)[j2 - 1]);
                            assert(s1.kids(i2)[j2 - 1].1 != x);
                        } else {
                            assert(s2.kids(i2)[j1] == s1.kids(i2)[j1 - 1]);
                            assert(s2.kids(i2)[j2] == s1.kids(i2)[j2 - 1]);
                        }
                    }
                }
                if i2 != 0 && ItemIdx::Container(i2 as usize) != x {
                    let q = s1.ctrat(i2).parent->Some_0;
                    assert(s1.has_entry(q as int, ItemIdx::Container(i2 as usize)));
                    let j0 = choose|j0: int|
                        0 <= j0 < s1.kids(q as int).len() && s1.kids(q as int)[j0].1
                            == ItemIdx::Container(i2 as usize);
                    if q == p {
                        if j0 < idx {
                            assert(s2.kids(q as int)[j0].1 == ItemIdx::Container(i2 as usize));
                        } else {
                            assert(s2.kids(q as int)[j0 + 1].1 == ItemIdx::Container(
                                i2 as usize,
                            ));
                        }
                    } else {
                        assert(s2.kids(q as int)[j0].1 == ItemIdx::Container(i2 as usize));
                    }
                }
                if i2 != 0 && ItemIdx::Container(i2 as usize) == x {
                    assert(s2.kids(p as int)[idx as int].1 == x);
                }
            }
            assert forall|i2: int| s2.live_w(i2) implies s2.win_ok(i2, Option::None) by {
                assert(s1.live_w(i2));
                assert(s1.win_ok(i2, Option::Some(x)));
                if ItemIdx::Window(i2 as usize) != x {
                    assert(s2.winat(i2) == s1.winat(i2));
                } else {
                    let xi = x->Window_0;
                    assert(i2 == xi as int);
                    assert(s2.winat(i2) == Window { parent: Option::Some(p), ..s1.winat(i2) });
                }
                if ItemIdx::Window(i2 as usize) == x {
                    assert(s2.kids(p as int)[idx as int].1 == x);
                } else if s1.winat(i2).parent is Some {
                    let q = s1.winat(i2).parent->Some_0;
                    assert(s1.has_entry(q as int, ItemIdx::Window(i2 as usize)));
                    let j0 = choose|j0: int|
                        0 <= j0 < s1.kids(q as int).len() && s1.kids(q as int)[j0].1
                            == ItemIdx::Window(i2 as usize);
                    if q == p {
                        if j0 < idx {
                            assert(s2.kids(q as int)[j0].1 == ItemIdx::Window(i2 as usize));
                        } else {
                            assert(s2.kids(q as int)[j0 + 1].1 == ItemIdx::Window(i2 as usize));
                        }
                    } else {
                        assert(s2.kids(q as int)[j0].1 == ItemIdx::Window(i2 as usize));
                    }
                }
            }
            // Grounding: the mid state (same pointers as the old state)
            // is grounded, and re-pointing `x` under `p` keeps it so.
            assert forall|y: ItemIdx| s_mid.parent_of(y) == s1.parent_of(y) by {}
            assert forall|k: nat| !s_mid.up_reaches(ItemIdx::Container(p), x, k) by {
                if s_mid.up_reaches(ItemIdx::Container(p), x, k) {
                    lemma_up_reaches_frame(s_mid, s1, ItemIdx::Container(p), x, k);
                }
            }
            assert(s1.live(ItemIdx::Container(p)));
            assert(s1.rooted(ItemIdx::Container(p)));
            let mp = choose|nn: nat| s1.grounded(ItemIdx::Container(p), nn);
            lemma_grounded_drop(s1, s_mid, ItemIdx::Container(p), mp);
            assert forall|y: ItemIdx| s2.live(y) implies s2.rooted(y) by {
                assert(s1.live(y));
                let nn = choose|nn: nat| s1.grounded(y, nn);
                lemma_grounded_drop(s1, s_mid, y, nn);
                lemma_grounded_reattach(s_mid, s2, x, p, mp, y, nn);
            }
        }
    }

    /// Removes child `j` from container `p`'s list and clears the
    /// removed item's parent pointer, leaving it detached.
    #[verifier::rlimit(100)]
    #[verifier::spinoff_prover]
    pub(crate) fn detach(&mut self, p: usize, j: usize) -> (x: ItemIdx)
        requires
            old(self).wf(),
            old(self).live_c(p as int),
            (j as int) < old(self).kids(p as int).len(),
        ensures
            x == old(self).kids(p as int)[j as int].1,
            final(self).wfx(Option::Some(x), Option::Some(p as int)),
            final(self).kids(p as int) == old(self).kids(p as int).remove(j as int),
            final(self).parent_of(x) is None,
            final(self).live(x),
            x != ItemIdx::Container(0),
            forall|y: ItemIdx| y != x ==> final(self).parent_of(y) == old(self).parent_of(y),
            final(self).containers@.len() == old(self).containers@.len(),
            final(self).windows@.len() == old(self).windows@.len(),
            forall|i: int| final(self).live_c(i) == old(self).live_c(i),
            forall|i: int| final(self).live_w(i) == old(self).live_w(i),
            forall|i: int|
                old(self).live_c(i) && i != p && ItemIdx::Container(i as usize) != x ==> final(self).ctrat(i) == old(self).ctrat(i),
            forall|i: int|
                old(self).live_w(i) && ItemIdx::Window(i as usize) != x ==> final(self).winat(i)
                    == old(self).winat(i),
            final(self).ctrat(p as int) == (Container {
                children: final(self).ctrat(p as int).children,
                ..old(self).ctrat(p as int)
            }),
            forall|y: ItemIdx| old(self).live(y) ==> final(self).bounds_of(y) == old(self).bounds_of(y),
            final(self).root_bounds == old(self).root_bounds,
            final(self).default_padding == old(self).default_padding,
            final(self).cctor == old(self).cctor,
    {
        let cap_c = self.containers.len();
        let cap_w = self.windows.len();
        proof {
            assert(old(self).containers@.len() == cap_c);
            assert(old(self).windows@.len() == cap_w);
            assert(old(self).ctr_ok(p as int, Option::None, Option::None));
            assert(old(self).entry_ok(p as int, j as int));
        }
        let x = self.containers[p].as_ref().unwrap().children[j].1;
        proof {
            let s1 = *old(self);
            if x == ItemIdx::Container(p) {
                assert(s1.parent_of(x) == Option::Some(p));
                assert(s1.up_reaches(x, x, 0));
                assert(s1.up_reaches(x, x, 1));
                assert(s1.live(x) && s1.rooted(x));
                let nf = choose|nn: nat| s1.grounded(x, nn);
                lemma_no_cycle(s1, x, nf, 1);
            }
            assert(x != ItemIdx::Container(p));
        }
        self.ctr_mut(p).children.remove(j);
        self.set_parent(x, Option::None);
        proof {
            let s1 = *old(self);
            let s2 = *self;
            assert(s2.kids(p as int) == s1.kids(p as int).remove(j as int));
            assert forall|y: ItemIdx| y != x implies s2.parent_of(y) == s1.parent_of(y) by {}
            // `x` appears only at (p, j): its parent pointer names `p`,
            // and `p`'s list holds it exactly once.
            assert forall|i2: int, j2: int|
                s1.live_c(i2) && 0 <= j2 < s1.kids(i2).len() && !(i2 == p as int && j2
                    == j as int) implies #[trigger] s1.kids(i2)[j2].1 != x by {
                assert(s1.entry_ok(i2, j2));
                if i2 == p as int && s1.kids(i2)[j2].1 == x {
                    assert(s1.ctr_ok(p as int, Option::None, Option::None));
                    if j2 < j {
                        assert(s1.kids(i2)[j2].1 != s1.kids(i2)[j as int].1);
                    } else {
                        assert(s1.kids(i2)[j as int].1 != s1.kids(i2)[j2].1);
                    }
                }
            }
            assert forall|i2: int|
                s2.live_c(i2) implies s2.ctr_ok(
                i2,
                Option::Some(x),
                Option::Some(p as int),
            ) by {
                assert(s1.live_c(i2));
                assert(s1.ctr_ok(i2, Option::None, Option::None));
                if i2 == p as int {
                    assert(s2.ctrat(i2) == Container {
                        children: s2.ctrat(i2).children,
                        ..s1.ctrat(i2)
                    });
                } else if ItemIdx::Container(i2 as usize) == x {
                    let xi = x->Container_0;
                    assert(i2 == xi as int);
                    assert(s2.ctrat(i2) == Container { parent: Option::None, ..s1.ctrat(i2) });
                } else {
                    assert(s2.ctrat(i2) == s1.ctrat(i2));
                }
                assert forall|j2: int| 0 <= j2 < s2.kids(i2).len() implies s2.entry_ok(i2, j2) by {
                    if i2 == p as int {
                        if j2 < j {
                            assert(s2.kids(i2)[j2] == s1.kids(i2)[j2]);
                            assert(s1.entry_ok(i2, j2));
                            assert(s1.kids(i2)[j2].1 != x);
                        } else {
                            assert(s2.kids(i2)[j2] == s1.kids(i2)[j2 + 1]);
                            assert(s1.entry_ok(i2, j2 + 1));
                            assert(s1.kids(i2)[j2 + 1].1 != x);
                        }
                    } else {
                        assert(s2.kids(i2) == s1.kids(i2));
                        assert(s1.entry_ok(i2, j2));
                        assert(s1.kids(i2)[j2].1 != x);
                    }
                }
                assert forall|j1: int, j2: int|
                    0 <= j1 < j2 < s2.kids(i2).len() implies s2.kids(i2)[j1].1 != s2.kids(
                    i2,
                )[j2].1 by {
                    if i2 == p as int {
                        assert(s2.kids(i2)[j1] == if j1 < j {
                            s1.kids(i2)[j1]
                        } else {
                            s1.kids(i2)[j1 + 1]
                        });
                        assert(s2.kids(i2)[j2] == if j2 < j {
                            s1.kids(i2)[j2]
                        } else {
                            s1.kids(i2)[j2 + 1]
                        });
                    }
                }
                if i2 != 0 && ItemIdx::Container(i2 as usize) != x {
                    let q = s1.ctrat(i2).parent->Some_0;
                    assert(s1.has_entry(q as int, ItemIdx::Container(i2 as usize)));
                    let j0 = choose|j0: int|
                        0 <= j0 < s1.kids(q as int).len() && s1.kids(q as int)[j0].1
                            == ItemIdx::Container(i2 as usize);
                    if q == p {
                        assert(s1.kids(q as int)[j0].1 != x);
                        if j0 < j {
                            assert(s2.kids(q as int)[j0].1 == ItemIdx::Container(i2 as usize));
                        } else {
                            assert(s2.kids(q as int)[j0 - 1].1 == ItemIdx::Container(
                                i2 as usize,
                            ));
                        }
                    } else {
                        assert(s2.kids(q as int)[j0].1 == ItemIdx::Container(i2 as usize));
                    }
                }
            }
            assert forall|i2: int| s2.live_w(i2) implies s2.win_ok(i2, Option::Some(x)) by {
                assert(s1.live_w(i2));
                assert(s1.win_ok(i2, Option::None));
                if ItemIdx::Window(i2 as usize) != x {
                    assert(s2.winat(i2) == s1.winat(i2));
                } else {
                    let xi = x->Window_0;
                    assert(i2 == xi as int);
                    assert(s2.winat(i2) == Window { parent: Option::None, ..s1.winat(i2) });
                }
                if ItemIdx::Window(i2 as usize) != x && s1.winat(i2).parent is Some {
                    let q = s1.winat(i2).parent->Some_0;
                    assert(s1.has_entry(q as int, ItemIdx::Window(i2 as usize)));
                    let j0 = choose|j0: int|
                        0 <= j0 < s1.kids(q as int).len() && s1.kids(q as int)[j0].1
                            == ItemIdx::Window(i2 as usize);
                    if q == p {
                        assert(s1.kids(q as int)[j0].1 != x);
                        if j0 < j {
                            assert(s2.kids(q as int)[j0].1 == ItemIdx::Window(i2 as usize));
                        } else {
                            assert(s2.kids(q as int)[j0 - 1].1 == ItemIdx::Window(i2 as usize));
                        }
                    } else {
                        assert(s2.kids(q as int)[j0].1 == ItemIdx::Window(i2 as usize));
                    }
                }
            }
            assert forall|y: ItemIdx| s2.live(y) implies s2.rooted(y) by {
                assert(s1.live(y));
                let nn = choose|nn: nat| s1.grounded(y, nn);
                lemma_grounded_drop(s1, s2, y, nn);
            }
        }
        x
    }

    /// Collapses container `p` when it has dropped to a single child:
    /// the container is deleted (its payload handed back through an
    /// `ItemDestroyed` action) and its sole child is spliced into the
    /// grandparent at the position `p` occupied.  Returns the
    /// grandparent when a fuse happened.
    #[verifier::rlimit(100)]
    #[verifier::spinoff_prover]
    pub(crate) fn fuse_if_necessary(
        &mut self,
        p: usize,
        out: &mut Vec<LayoutAction<W, C>>,
    ) -> (r: Option<usize>)
        requires
            old(self).wfx(Option::None, Option::Some(p as int)),
            old(self).live_c(p as int),
            old(self).kids(p as int).len() >= 1 || p == 0,
        ensures
            final(self).wf(),
            match r {
                Option::Some(gp) => {
                    &&& p != 0
                    &&& old(self).kids(p as int).len() == 1
                    &&& old(self).parent_of(ItemIdx::Container(p)) == Option::Some(gp)
                    &&& final(self).live_c(gp as int)
                    &&& !final(self).live_c(p as int)
                    &&& final(self).kids(gp as int) == old(self).kids(gp as int).update(
                        old(self).index_of(gp as int, ItemIdx::Container(p)),
                        (
                            old(self).kids(gp as int)[old(self).index_of(
                                gp as int,
                                ItemIdx::Container(p),
                            )].0,
                            old(self).kids(p as int)[0].1,
                        ),
                    )
                    &&& final(self).parent_of(old(self).kids(p as int)[0].1) == Option::Some(gp)
                    &&& final(out)@ == old(out)@.push(
                        LayoutAction::ItemDestroyed {
                            item: ItemAndData::Container(p, old(self).ctrat(p as int).data),
                        },
                    )
                },
                Option::None => {
                    &&& *final(self) == *old(self)
                    &&& final(out)@ == old(out)@
                    &&& (p == 0 || old(self).kids(p as int).len() >= 2)
                },
            },
            forall|y: ItemIdx|
                final(self).live(y) == (old(self).live(y) && (r is None || y != ItemIdx::Container(
                    p,
                ))),
    {
        let cap_c = self.containers.len();
        let cap_w = self.windows.len();
        proof {
            assert(old(self).containers@.len() == cap_c);
            assert(old(self).windows@.len() == cap_w);
            assert(old(self).ctr_ok(p as int, Option::None, Option::Some(p as int)));
        }
        let has_parent = self.containers[p].as_ref().unwrap().parent;
        match has_parent {
            Option::None => Option::None,
            Option::Some(gp) => {
                if self.containers[p].as_ref().unwrap().children.len() == 1 {
                    proof {
                        let s1 = *self;
                        assert(s1.ctr_ok(p as int, Option::None, Option::Some(p as int)));
                        if p == gp {
                            assert(s1.parent_of(ItemIdx::Container(p)) == Option::Some(p));
                            assert(s1.up_reaches(ItemIdx::Container(p), ItemIdx::Container(p), 0));
                            assert(s1.up_reaches(ItemIdx::Container(p), ItemIdx::Container(p), 1));
                            assert(s1.live(ItemIdx::Container(p)) && s1.rooted(ItemIdx::Container(p)));
                            let nf = choose|nn: nat| s1.grounded(ItemIdx::Container(p), nn);
                            lemma_no_cycle(s1, ItemIdx::Container(p), nf, 1);
                        }
                    }
                    let idx_in_gp = self.find_child_index(gp, ItemIdx::Container(p));
                    let child = self.containers[p].as_ref().unwrap().children[0].1;
                    proof {
                        let s1 = *self;
                        assert(s1.entry_ok(p as int, 0));
                        if child == ItemIdx::Container(p) {
                            assert(s1.parent_of(child) == Option::Some(p));
                            assert(s1.up_reaches(child, child, 0));
                            assert(s1.up_reaches(child, child, 1));
                            assert(s1.live(child) && s1.rooted(child));
                            let nf = choose|nn: nat| s1.grounded(child, nn);
                            lemma_no_cycle(s1, child, nf, 1);
                        }
                        assert(child != ItemIdx::Container(p));
                    }
                    let parent_ctr = match (&mut self.containers[p]).take() {
                        Option::Some(ctr) => ctr,
                        Option::None => unreached(),
                    };
                    out.push(
                        LayoutAction::ItemDestroyed {
                            item: ItemAndData::Container(p, parent_ctr.data),
                        },
                    );
                    let keep = self.containers[gp].as_ref().unwrap().children[idx_in_gp].0;
                    let gp_ctr = self.ctr_mut(gp);
                    gp_ctr.children[idx_in_gp] = (keep, child);
                    self.set_parent(child, Option::Some(gp));
                    proof {
                        let s1 = *old(self);
                        let s2 = *self;
                        assert(s1.entry_ok(p as int, 0));
                        assert(child != ItemIdx::Container(p)) by {
                            if child == ItemIdx::Container(p) {
                                assert(s1.parent_of(child) == Option::Some(p));
                                assert(s1.up_reaches(child, child, 0));
                                assert(s1.up_reaches(child, child, 1));
                                assert(s1.live(child) && s1.rooted(child));
                                let nf = choose|nn: nat| s1.grounded(child, nn);
                                lemma_no_cycle(s1, child, nf, 1);
                            }
                        }
                        assert(p != gp);
                        assert(child != ItemIdx::Container(gp)) by {
                            if child == ItemIdx::Container(gp) {
                                assert(s1.parent_of(ItemIdx::Container(gp)) == Option::Some(p));
                                assert(s1.parent_of(ItemIdx::Container(p)) == Option::Some(gp));
                                assert(s1.up_reaches(ItemIdx::Container(gp), ItemIdx::Container(gp), 0));
                                assert(s1.up_reaches(ItemIdx::Container(p), ItemIdx::Container(gp), 1));
                                assert(s1.up_reaches(ItemIdx::Container(gp), ItemIdx::Container(gp), 2));
                                assert(s1.live(ItemIdx::Container(gp)) && s1.rooted(ItemIdx::Container(gp)));
                                let nf = choose|nn: nat|
                                    s1.grounded(ItemIdx::Container(gp), nn);
                                lemma_no_cycle(s1, ItemIdx::Container(gp), nf, 2);
                            }
                        }
                        assert(s2.kids(gp as int) == s1.kids(gp as int).update(
                            idx_in_gp as int,
                            (keep, child),
                        ));
                        assert forall|y: ItemIdx|
                            y != child implies s2.parent_of(y) == s1.parent_of(y) || s2.parent_of(
                            y,
                        ) is None by {}
                        // Only (gp, idx_in_gp) named `p`; only (p, 0)
                        // named `child`.
                        assert forall|i2: int, j2: int|
                            s1.live_c(i2) && 0 <= j2 < s1.kids(i2).len() && !(i2 == gp as int
                                && j2 == idx_in_gp as int) implies #[trigger] s1.kids(i2)[j2].1
                            != ItemIdx::Container(p) by {
                            assert(s1.entry_ok(i2, j2));
                            if i2 == gp as int && s1.kids(i2)[j2].1 == ItemIdx::Container(p) {
                                assert(s1.ctr_ok(gp as int, Option::None, Option::Some(p as int)));
                            }
                        }
                        assert forall|i2: int, j2: int|
                            s1.live_c(i2) && 0 <= j2 < s1.kids(i2).len() && !(i2 == p as int && j2
                                == 0) implies #[trigger] s1.kids(i2)[j2].1 != child by {
                            assert(s1.entry_ok(i2, j2));
                        }
                        assert forall|i2: int|
                            s2.live_c(i2) implies s2.ctr_ok(i2, Option::None, Option::None) by {
                            assert(s1.live_c(i2));
                            assert(s1.ctr_ok(i2, Option::None, Option::Some(p as int)));
                            assert(i2 != p as int);
                            if i2 == gp as int {
                                assert(s2.ctrat(i2) == Container {
                                    children: s2.ctrat(i2).children,
                                    ..s1.ctrat(i2)
                                });
                            } else if ItemIdx::Container(i2 as usize) == child {
                                let xi = child->Container_0;
                                assert(i2 == xi as int);
                                assert(s2.ctrat(i2) == Container {
                                    parent: Option::Some(gp),
                                    ..s1.ctrat(i2)
                                });
                            } else {
                                assert(s2.ctrat(i2) == s1.ctrat(i2));
                            }
                            assert forall|j2: int|
                                0 <= j2 < s2.kids(i2).len() implies s2.entry_ok(i2, j2) by {
                                if i2 == gp as int && j2 == idx_in_gp as int {
                                    assert(s2.kids(i2)[j2] == (keep, child));
                                    assert(s1.entry_ok(gp as int, idx_in_gp as int));
                                    assert(s1.entry_ok(p as int, 0));
                                } else {
                                    if i2 == gp as int {
                                        assert(s2.kids(i2)[j2] == s1.kids(i2)[j2]);
                                    } else {
                                        assert(s2.kids(i2) == s1.kids(i2));
                                    }
                                    assert(s1.entry_ok(i2, j2));
                                    assert(s1.kids(i2)[j2].1 != child);
                                    assert(s1.kids(i2)[j2].1 != ItemIdx::Container(p));
                                }
                            }
                            assert forall|j1: int, j2: int|
                                0 <= j1 < j2 < s2.kids(i2).len() implies s2.kids(i2)[j1].1
                                != s2.kids(i2)[j2].1 by {
                                if i2 == gp as int {
                                    if j1 != idx_in_gp && j2 != idx_in_gp {
                                    } else if j1 == idx_in_gp {
                                        assert(s2.kids(i2)[j2].1 == s1.kids(i2)[j2].1);
                                        assert(s1.kids(i2)[j2].1 != child);
                                    } else {
                                        assert(s2.kids(i2)[j1].1 == s1.kids(i2)[j1].1);
                                        assert(s1.kids(i2)[j1].1 != child);
                                    }
                                }
                            }
                            if i2 != 0 {
                                let q = s1.ctrat(i2).parent->Some_0;
                                assert(s1.has_entry(q as int, ItemIdx::Container(i2 as usize)));
                                let j0 = choose|j0: int|
                                    0 <= j0 < s1.kids(q as int).len() && s1.kids(q as int)[j0].1
                                        == ItemIdx::Container(i2 as usize);
                                if ItemIdx::Container(i2 as usize) == child {
                                    assert(s2.kids(gp as int)[idx_in_gp as int].1 == child);
                                } else {
                                    assert(q != p);
                                    if q == gp {
                                        assert(j0 != idx_in_gp);
                                        assert(s2.kids(q as int)[j0].1 == ItemIdx::Container(
                                            i2 as usize,
                                        ));
                                    } else {
                                        assert(s2.kids(q as int)[j0].1 == ItemIdx::Container(
                                            i2 as usize,
                                        ));
                                    }
                                }
                            }
                        }
                        assert forall|i2: int|
                            s2.live_w(i2) implies s2.win_ok(i2, Option::None) by {
                            assert(s1.live_w(i2));
                            assert(s1.win_ok(i2, Option::None));
                            if ItemIdx::Window(i2 as usize) != child {
                                assert(s2.winat(i2) == s1.winat(i2));
                            } else {
                                let xi = child->Window_0;
                                assert(i2 == xi as int);
                                assert(s2.winat(i2) == Window {
                                    parent: Option::Some(gp),
                                    ..s1.winat(i2)
                                });
                            }
                            if ItemIdx::Window(i2 as usize) == child {
                                assert(s2.kids(gp as int)[idx_in_gp as int].1 == child);
                            } else if s1.winat(i2).parent is Some {
                                let q = s1.winat(i2).parent->Some_0;
                                assert(s1.has_entry(q as int, ItemIdx::Window(i2 as usize)));
                                let j0 = choose|j0: int|
                                    0 <= j0 < s1.kids(q as int).len() && s1.kids(q as int)[j0].1
                                        == ItemIdx::Window(i2 as usize);
                                assert(q != p);
                                if q == gp {
                                    assert(j0 != idx_in_gp);
                                }
                                assert(s2.kids(q as int)[j0].1 == ItemIdx::Window(i2 as usize));
                            }
                        }
                        assert forall|y: ItemIdx| s2.live(y) implies s2.rooted(y) by {
                            assert(s1.live(y));
                            let nn = choose|nn: nat| s1.grounded(y, nn);
                            lemma_grounded_skip(s1, s2, child, p, y, nn);
                        }
                        // The found index is the unique listing of `p`.
                        assert(s1.has_entry(gp as int, ItemIdx::Container(p)));
                        let j0 = s1.index_of(gp as int, ItemIdx::Container(p));
                        assert(0 <= j0 < s1.kids(gp as int).len() && s1.kids(gp as int)[j0].1
                            == ItemIdx::Container(p));
                        assert(j0 == idx_in_gp as int) by {
                            assert(s1.ctr_ok(gp as int, Option::None, Option::Some(p as int)));
                            if j0 < idx_in_gp as int {
                                assert(s1.kids(gp as int)[j0].1 != s1.kids(
                                    gp as int,
                                )[idx_in_gp as int].1);
                            } else if j0 > idx_in_gp as int {
                                assert(s1.kids(gp as int)[idx_in_gp as int].1 != s1.kids(
                                    gp as int,
                                )[j0].1);
                            }
                        }
                    }
                    Option::Some(gp)
                } else {
                    Option::None
                }
            },
        }
    }
}

impl<W, C, CCtor: Constructor<Item = C>> Layout<W, C, CCtor> {
    /// Draws a fresh container payload from the host's constructor.
    #[verifier::rlimit(100)]
    #[verifier::spinoff_prover]
    fn fresh_payload(
        &mut self,
        Ghost(ex): Ghost<Option<ItemIdx>>,
        Ghost(low): Ghost<Option<int>>,
    ) -> (r: C)
        requires
            old(self).wfx(ex, low),
        ensures
            final(self).wfx(ex, low),
            final(self).windows == old(self).windows,
            final(self).containers == old(self).containers,
            final(self).root_bounds == old(self).root_bounds,
            final(self).default_padding == old(self).default_padding,
            forall|y: ItemIdx| final(self).parent_of(y) == old(self).parent_of(y),
    {
        let r = match &mut self.cctor {
            Option::Some(cc) => cc.construct(),
            Option::None => unreached(),
        };
        proof {
            let s1 = *old(self);
            let s2 = *self;
            assert forall|y: ItemIdx| s2.parent_of(y) == s1.parent_of(y) by {}
            assert forall|i2: int| s2.live_c(i2) implies s2.ctr_ok(i2, ex, low) by {
                assert(s1.live_c(i2));
                assert(s1.ctr_ok(i2, ex, low));
                assert(s2.ctrat(i2) == s1.ctrat(i2));
                assert forall|j: int| 0 <= j < s2.kids(i2).len() implies s2.entry_ok(i2, j) by {
                    assert(s1.entry_ok(i2, j));
                }
                if i2 != 0 && ex != Option::Some(ItemIdx::Container(i2 as usize)) {
                    let p = s1.ctrat(i2).parent->Some_0;
                    assert(s1.has_entry(p as int, ItemIdx::Container(i2 as usize)));
                    assert(s2.kids(p as int) == s1.kids(p as int));
                }
            }
            assert forall|i2: int| s2.live_w(i2) implies s2.win_ok(i2, ex) by {
                assert(s1.live_w(i2));
                assert(s2.winat(i2) == s1.winat(i2));
                assert(s1.win_ok(i2, ex));
                if s1.winat(i2).parent is Some && ex != Option::Some(
                    ItemIdx::Window(i2 as usize),
                ) {
                    let p = s1.winat(i2).parent->Some_0;
                    assert(s2.kids(p as int) == s1.kids(p as int));
                }
            }
            assert forall|x: ItemIdx| s2.live(x) implies s2.rooted(x) by {
                assert(s1.live(x));
                let nn = choose|nn: nat| s1.grounded(x, nn);
                lemma_grounded_drop(s1, s2, x, nn);
            }
        }
        r
    }

    /// Replaces `target` (which sits in container `p`) with a fresh
    /// two-child container holding `inserted` and `target` in the order
    /// given by `inserted_first`, at the same position and with the
    /// bounds `target` had.
    #[verifier::rlimit(100)]
    #[verifier::spinoff_prover]
    fn split_attached(
        &mut self,
        inserted: ItemIdx,
        target: ItemIdx,
        p: usize,
        strategy: LayoutStrategy,
        inserted_first: bool,
        Ghost(low): Ghost<Option<int>>,
    ) -> (r: usize)
        requires
            old(self).wfx(Option::Some(inserted), low),
            old(self).live(target),
            old(self).parent_of(target) == Option::Some(p),
            target != inserted,
            forall|k: nat| !old(self).up_reaches(target, inserted, k),
        ensures
            final(self).wfx(Option::None, low),
            final(self).live_c(r as int),
            !old(self).live_c(r as int),
            final(self).parent_of(inserted) == Option::Some(r),
            final(self).parent_of(target) == Option::Some(r),
            final(self).kids(r as int).len() == 2,
            final(self).kids(r as int)[if inserted_first { 0int } else { 1int }].1 == inserted,
            final(self).kids(r as int)[if inserted_first { 1int } else { 0int }].1 == target,
            final(self).bounds_of(ItemIdx::Container(r)) == old(self).bounds_of(target),
            final(self).live_c(p as int),
            final(self).live(inserted),
    {
        let nc = self.free_container_slot(Ghost(Option::Some(inserted)), Ghost(low));
        let data = self.fresh_payload(Ghost(Option::Some(inserted)), Ghost(low));
        let cap_c = self.containers.len();
        let cap_w = self.windows.len();
        let ghost s1 = *self;
        proof {
            assert(s1.containers@.len() == cap_c);
            assert(s1.windows@.len() == cap_w);
            assert(s1.live(target));
            assert(s1.parent_of(target) == Option::Some(p));
            assert(s1.live_c(p as int));
            assert(s1.ctr_ok(p as int, Option::Some(inserted), low));
            assert forall|k: nat| !s1.up_reaches(target, inserted, k) by {
                if s1.up_reaches(target, inserted, k) {
                    lemma_up_reaches_frame(s1, *old(self), target, inserted, k);
                }
            }
            assert(s1.has_entry(p as int, target)) by {
                if ItemIdx::Container(p) == target {
                } else {
                    match target {
                        ItemIdx::Window(wi) => {
                            assert(s1.win_ok(wi as int, Option::Some(inserted)));
                        },
                        ItemIdx::Container(ci) => {
                            assert(s1.ctr_ok(ci as int, Option::Some(inserted), low));
                        },
                    }
                }
            }
        }
        let j = self.find_child_index(p, target);
        let bounds = self.bounds(target);
        let dp = self.default_padding;
        let mut two: Vec<(usize, ItemIdx)> = Vec::new();
        if inserted_first {
            two.push((1, inserted));
            two.push((1, target));
        } else {
            two.push((1, target));
            two.push((1, inserted));
        }
        let nc_rec = Container {
            strategy,
            children: two,
            parent: Option::Some(p),
            bounds,
            inter: 0,
            padding: dp,
            data,
        };
        let slot = &mut self.containers[nc];
        *slot = Option::Some(nc_rec);
        let e0 = self.containers[p].as_ref().unwrap().children[j].0;
        self.ctr_mut(p).children[j] = (e0, ItemIdx::Container(nc));
        self.set_parent(target, Option::Some(nc));
        self.set_parent(inserted, Option::Some(nc));
        proof {
            let s2 = *self;
            assert(target != ItemIdx::Container(p)) by {
                if target == ItemIdx::Container(p) {
                    assert(s1.up_reaches(target, target, 0));
                    assert(s1.up_reaches(target, target, 1));
                    assert(s1.live(target) && s1.rooted(target));
                    let nf = choose|nn: nat| s1.grounded(target, nn);
                    lemma_no_cycle(s1, target, nf, 1);
                }
            }
            assert(nc != p && nc != 0 && ItemIdx::Container(nc) != target && ItemIdx::Container(
                nc,
            ) != inserted);
            assert(ItemIdx::Container(p) != inserted) by {
                if ItemIdx::Container(p) == inserted {
                    assert(s1.up_reaches(target, inserted, 0) == (target == inserted));
                    assert(s1.up_reaches(ItemIdx::Container(p), inserted, 0));
                    assert(s1.up_reaches(target, inserted, 1));
                }
            }
            assert forall|y: ItemIdx| #[trigger] s1.parent_of(y) != Option::Some(nc) by {
                if s1.parent_of(y) == Option::Some(nc) {
                    assert(s1.live(y));
                    match y {
                        ItemIdx::Window(i) => {
                            assert(s1.win_ok(i as int, Option::Some(inserted)));
                        },
                        ItemIdx::Container(i) => {
                            assert(s1.ctr_ok(i as int, Option::Some(inserted), low));
                        },
                    }
                }
            }
            let dset = Set::<ItemIdx>::empty().insert(inserted).insert(target);
            assert forall|y: ItemIdx|
                !dset.contains(y) && y != ItemIdx::Container(nc) implies #[trigger] s2.parent_of(
                y,
            ) == s1.parent_of(y) by {}
            let avoided = Set::<ItemIdx>::empty().insert(inserted).insert(target).insert(
                ItemIdx::Container(nc),
            );
            assert(s1.live(ItemIdx::Container(p)) && s1.rooted(ItemIdx::Container(p)));
            let mp = choose|nn: nat| s1.grounded(ItemIdx::Container(p), nn);
            assert forall|a: ItemIdx, k: nat|
                avoided.contains(a) implies !#[trigger] s1.up_reaches(
                ItemIdx::Container(p),
                a,
                k,
            ) by {
                if s1.up_reaches(ItemIdx::Container(p), a, k) {
                    if a == target {
                        assert(s1.up_reaches(target, target, (k + 1) as nat));
                        let nf = choose|nn: nat| s1.grounded(target, nn);
                        lemma_no_cycle(s1, target, nf, (k + 1) as nat);
                    } else if a == inserted {
                        assert(s1.up_reaches(target, inserted, (k + 1) as nat));
                    } else {
                        if k == 0 {
                            assert(s1.live_c(p as int));
                        } else {
                            crate::ground::lemma_fresh_unreachable(
                                s1,
                                nc,
                                ItemIdx::Container(p),
                                k,
                            );
                        }
                    }
                }
            }
            lemma_grounded_avoid_set(s1, s2, avoided, ItemIdx::Container(p), mp);
            assert forall|y: ItemIdx| s2.live(y) implies s2.rooted(y) by {
                if y == ItemIdx::Container(nc) {
                    assert(s2.grounded(ItemIdx::Container(p), mp));
                    assert(s2.grounded(y, (mp + 1) as nat));
                } else {
                    assert(s1.live(y));
                    let nn = choose|nn: nat| s1.grounded(y, nn);
                    crate::ground::lemma_grounded_splice2(
                        s1,
                        s2,
                        dset,
                        nc,
                        Option::Some(p),
                        mp,
                        y,
                        nn,
                    );
                }
            }
            assert forall|i2: int, j2: int|
                s1.live_c(i2) && 0 <= j2 < s1.kids(i2).len() && !(i2 == p as int && j2
                    == j as int) implies #[trigger] s1.kids(i2)[j2].1 != target by {
                assert(s1.entry_ok(i2, j2));
                if i2 == p as int && s1.kids(i2)[j2].1 == target {
                    assert(s1.ctr_ok(p as int, Option::Some(inserted), low));
                    if j2 < j {
                        assert(s1.kids(i2)[j2].1 != s1.kids(i2)[j as int].1);
                    } else {
                        assert(s1.kids(i2)[j as int].1 != s1.kids(i2)[j2].1);
                    }
                }
            }
            assert forall|i2: int, j2: int|
                s1.live_c(i2) && 0 <= j2 < s1.kids(i2).len() implies #[trigger] s1.kids(
                i2,
            )[j2].1 != inserted by {
                assert(s1.entry_ok(i2, j2));
            }
            assert forall|i2: int| s2.live_c(i2) implies s2.ctr_ok(i2, Option::None, low) by {
                if i2 == nc as int {
                    assert(s2.kids(i2).len() == 2);
                    assert(s2.has_entry(p as int, ItemIdx::Container(nc))) by {
                        assert(s2.kids(p as int)[j as int].1 == ItemIdx::Container(nc));
                    }
                } else {
                    assert(s1.live_c(i2));
                    assert(s1.ctr_ok(i2, Option::Some(inserted), low));
                    if i2 == p as int {
                        assert(s2.ctrat(i2) == Container {
                            children: s2.ctrat(i2).children,
                            ..s1.ctrat(i2)
                        });
                        assert(s2.kids(i2) == s1.kids(i2).update(
                            j as int,
                            (e0, ItemIdx::Container(nc)),
                        ));
                    } else if ItemIdx::Container(i2 as usize) == target {
                        let xi = target->Container_0;
                        assert(i2 == xi as int);
                        assert(s2.ctrat(i2) == Container {
                            parent: Option::Some(nc),
                            ..s1.ctrat(i2)
                        });
                    } else if ItemIdx::Container(i2 as usize) == inserted {
                        let xi = inserted->Container_0;
                        assert(i2 == xi as int);
                        assert(s2.ctrat(i2) == Container {
                            parent: Option::Some(nc),
                            ..s1.ctrat(i2)
                        });
                    } else {
                        assert(s2.ctrat(i2) == s1.ctrat(i2));
                    }
                    assert forall|j2: int|
                        0 <= j2 < s2.kids(i2).len() implies s2.entry_ok(i2, j2) by {
                        if i2 == p as int && j2 == j as int {
                            assert(s2.kids(i2)[j2] == (e0, ItemIdx::Container(nc)));
                            assert(s1.entry_ok(p as int, j as int));
                        } else {
                            assert(s2.kids(i2)[j2] == s1.kids(i2)[j2]);
                            assert(s1.entry_ok(i2, j2));
                            assert(s1.kids(i2)[j2].1 != target);
                            assert(s1.kids(i2)[j2].1 != inserted);
                        }
                    }
                    assert forall|j1: int, j2: int|
                        0 <= j1 < j2 < s2.kids(i2).len() implies s2.kids(i2)[j1].1 != s2.kids(
                        i2,
                    )[j2].1 by {
                        if i2 == p as int {
                            if j1 == j as int {
                                assert(s2.kids(i2)[j2].1 == s1.kids(i2)[j2].1);
                                assert(s1.entry_ok(i2, j2));
                            } else if j2 == j as int {
                                assert(s2.kids(i2)[j1].1 == s1.kids(i2)[j1].1);
                                assert(s1.entry_ok(i2, j1));
                            }
                        }
                    }
                    if i2 != 0 {
                        let q = s1.ctrat(i2).parent->Some_0;
                        if ItemIdx::Container(i2 as usize) == target || ItemIdx::Container(
                            i2 as usize,
                        ) == inserted {
                            assert(s2.has_entry(nc as int, ItemIdx::Container(i2 as usize))) by {
                                if inserted_first {
                                    assert(s2.kids(nc as int)[0].1 == inserted);
                                    assert(s2.kids(nc as int)[1].1 == target);
                                } else {
                                    assert(s2.kids(nc as int)[0].1 == target);
                                    assert(s2.kids(nc as int)[1].1 == inserted);
                                }
                            }
                        } else {
                            assert(s1.has_entry(q as int, ItemIdx::Container(i2 as usize)));
                            let j0 = choose|j0: int|
                                0 <= j0 < s1.kids(q as int).len() && s1.kids(q as int)[j0].1
                                    == ItemIdx::Container(i2 as usize);
                            assert(s2.kids(q as int)[j0].1 == ItemIdx::Container(i2 as usize));
                        }
                    }
                }
            }
            assert forall|i2: int| s2.live_w(i2) implies s2.win_ok(i2, Option::None) by {
                assert(s1.live_w(i2));
                assert(s1.win_ok(i2, Option::Some(inserted)));
                if ItemIdx::Window(i2 as usize) == target || ItemIdx::Window(i2 as usize)
                    == inserted {
                    let xi = if ItemIdx::Window(i2 as usize) == target {
                        target->Window_0
                    } else {
                        inserted->Window_0
                    };
                    assert(i2 == xi as int);
                    assert(s2.winat(i2).parent == Option::Some(nc));
                    assert(s2.has_entry(nc as int, ItemIdx::Window(i2 as usize))) by {
                        if inserted_first {
                            assert(s2.kids(nc as int)[0].1 == inserted);
                            assert(s2.kids(nc as int)[1].1 == target);
                        } else {
                            assert(s2.kids(nc as int)[0].1 == target);
                            assert(s2.kids(nc as int)[1].1 == inserted);
                        }
                    }
                } else {
                    assert(s2.winat(i2) == s1.winat(i2));
                    if s1.winat(i2).parent is Some {
                        let q = s1.winat(i2).parent->Some_0;
                        assert(s1.has_entry(q as int, ItemIdx::Window(i2 as usize)));
                        let j0 = choose|j0: int|
                            0 <= j0 < s1.kids(q as int).len() && s1.kids(q as int)[j0].1
                                == ItemIdx::Window(i2 as usize);
                        assert(s1.kids(q as int)[j0].1 != target);
                        assert(s2.kids(q as int)[j0].1 == ItemIdx::Window(i2 as usize));
                    }
                }
            }
        }
        nc
    }


}

} // verus!
