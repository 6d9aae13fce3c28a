//! The proportional geometry solver: each child of a container receives a
//! share of the available main-axis length proportional to its weight,
//! with cumulative rounding so the shares always sum exactly to the
//! available length.

use vstd::prelude::*;
use vstd::arithmetic::div_mod::{lemma_div_is_ordered, lemma_div_multiples_vanish};
use vstd::arithmetic::mul::{lemma_mul_inequality, lemma_mul_upper_bound};
use crate::geom::{bounds_ok, AreaSize, Position, WindowBounds, MAX_DIM, MAX_WEIGHT};
use crate::item::{Container, ItemIdx, LayoutAction, LayoutStrategy, Window};
use crate::state::Layout;

verus! {

/// The sum of the weights of a child-list segment.
pub open spec fn sum_weights(s: Seq<(usize, ItemIdx)>) -> int
    decreases s.len(),
{
    if s.len() == 0 {
        0
    } else {
        sum_weights(s.drop_last()) + s.last().0
    }
}

/// `a - b`, floored at zero.
pub open spec fn sat_sub(a: int, b: int) -> int {
    if a >= b {
        a - b
    } else {
        0
    }
}

/// The smaller of two integers.
pub open spec fn min_int(a: int, b: int) -> int {
    if a <= b {
        a
    } else {
        b
    }
}

/// Segment sums grow with the segment.
pub proof fn lemma_sum_take_mono(s: Seq<(usize, ItemIdx)>, i: int, j: int)
    requires
        0 <= i <= j <= s.len(),
        forall|k: int| 0 <= k < s.len() ==> 1 <= #[trigger] s[k].0 <= MAX_WEIGHT,
    ensures
        sum_weights(s.take(i)) <= sum_weights(s.take(j)),
    decreases j - i,
{
    if i < j {
        lemma_sum_take_mono(s, i, j - 1);
        lemma_sum_take_succ_inner(s, j - 1);
    }
}

proof fn lemma_sum_take_succ_inner(s: Seq<(usize, ItemIdx)>, i: int)
    requires
        0 <= i < s.len(),
    ensures
        sum_weights(s.take(i + 1)) == sum_weights(s.take(i)) + s[i].0,
{
    let t = s.take(i + 1);
    assert(t.drop_last() =~= s.take(i));
    assert(t.last() == s[i]);
}

/// The solver's per-child formula depends only on the container's own
/// record, so two states agreeing on it assign the same child bounds.
pub proof fn lemma_formula_congruence<W, C, CCtor>(
    s1: Layout<W, C, CCtor>,
    s2: Layout<W, C, CCtor>,
    c: int,
)
    requires
        s1.ctrat(c) == s2.ctrat(c),
    ensures
        s1.spec_available_area(c) == s2.spec_available_area(c),
        s1.spec_available_length(c) == s2.spec_available_length(c),
        s1.begin_x(c) == s2.begin_x(c),
        s1.begin_y(c) == s2.begin_y(c),
        s1.total_weight(c) == s2.total_weight(c),
        forall|j: int| s1.prefix_weight(c, j) == s2.prefix_weight(c, j),
        forall|j: int|
            #[trigger] s1.child_bounds_formula(c, j) == s2.child_bounds_formula(c, j),
{
    assert forall|j: int| s1.prefix_weight(c, j) == s2.prefix_weight(c, j) by {
        assert(s1.kids(c) == s2.kids(c));
    }
    assert forall|j: int| #[trigger] s1.child_bounds_formula(c, j) == s2.child_bounds_formula(
        c,
        j,
    ) by {
        reveal(Layout::child_bounds_formula);
        assert(s1.child_offset(c, j) == s2.child_offset(c, j));
        assert(s1.child_offset(c, j + 1) == s2.child_offset(c, j + 1));
    }
}

/// Structural sameness is symmetric.
pub proof fn lemma_same_structure_sym<W, C, CCtor>(a: Layout<W, C, CCtor>, b: Layout<W, C, CCtor>)
    requires
        a.same_structure(b),
    ensures
        b.same_structure(a),
{
    assert forall|i: int| b.live_w(i) implies a.winat(i) == (Window {
        bounds: a.winat(i).bounds,
        ..b.winat(i)
    }) by {
        assert(b.winat(i) == Window { bounds: b.winat(i).bounds, ..a.winat(i) });
    }
    assert forall|i: int| b.live_c(i) implies a.ctrat(i) == (Container {
        bounds: a.ctrat(i).bounds,
        ..b.ctrat(i)
    }) by {
        assert(b.ctrat(i) == Container { bounds: b.ctrat(i).bounds, ..a.ctrat(i) });
    }
}

/// Structural sameness composes.
pub proof fn lemma_same_structure_trans<W, C, CCtor>(
    a: Layout<W, C, CCtor>,
    b: Layout<W, C, CCtor>,
    c: Layout<W, C, CCtor>,
)
    requires
        a.same_structure(b),
        b.same_structure(c),
    ensures
        a.same_structure(c),
{
    assert forall|i: int| a.live_w(i) implies c.winat(i) == (Window {
        bounds: c.winat(i).bounds,
        ..a.winat(i)
    }) by {
        assert(b.winat(i) == Window { bounds: b.winat(i).bounds, ..a.winat(i) });
        assert(c.winat(i) == Window { bounds: c.winat(i).bounds, ..b.winat(i) });
    }
    assert forall|i: int| a.live_c(i) implies c.ctrat(i) == (Container {
        bounds: c.ctrat(i).bounds,
        ..a.ctrat(i)
    }) by {
        assert(b.ctrat(i) == Container { bounds: b.ctrat(i).bounds, ..a.ctrat(i) });
        assert(c.ctrat(i) == Container { bounds: c.ctrat(i).bounds, ..b.ctrat(i) });
    }
}

/// Extending a segment by one entry adds that entry's weight.
pub proof fn lemma_sum_take_succ(s: Seq<(usize, ItemIdx)>, i: int)
    requires
        0 <= i < s.len(),
    ensures
        sum_weights(s.take(i + 1)) == sum_weights(s.take(i)) + s[i].0,
{
    let t = s.take(i + 1);
    assert(t.drop_last() =~= s.take(i));
    assert(t.last() == s[i]);
}

/// A segment of entries with weights in `[1, MAX_WEIGHT]` has a sum in
/// `[len, len * MAX_WEIGHT]`.
pub proof fn lemma_sum_bounds(s: Seq<(usize, ItemIdx)>)
    requires
        forall|j: int| 0 <= j < s.len() ==> 1 <= #[trigger] s[j].0 <= MAX_WEIGHT,
    ensures
        s.len() <= sum_weights(s) <= s.len() * MAX_WEIGHT,
    decreases s.len(),
{
    if s.len() > 0 {
        lemma_sum_bounds(s.drop_last());
        assert((s.len() - 1) * MAX_WEIGHT + MAX_WEIGHT == s.len() * MAX_WEIGHT) by (nonlinear_arith);
    }
}

/// The whole list is its own `take`.
pub proof fn lemma_sum_take_all(s: Seq<(usize, ItemIdx)>)
    ensures
        sum_weights(s.take(s.len() as int)) == sum_weights(s),
{
    assert(s.take(s.len() as int) =~= s);
}

/// `a * v / t <= v` whenever `a <= t`.
pub proof fn lemma_share_le_avail(a: int, t: int, v: int)
    requires
        0 <= a <= t,
        0 < t,
        0 <= v,
    ensures
        a * v / t <= v,
{
    lemma_mul_inequality(a, t, v);
    lemma_div_is_ordered(a * v, t * v, t);
    lemma_div_multiples_vanish(v, t);
    assert(t * v == v * t) by (nonlinear_arith);
}

/// Shares grow with the weight prefix.
pub proof fn lemma_share_mono(a: int, b: int, t: int, v: int)
    requires
        a <= b,
        0 < t,
        0 <= v,
        0 <= a,
    ensures
        a * v / t <= b * v / t,
{
    lemma_mul_inequality(a, b, v);
    lemma_div_is_ordered(a * v, b * v, t);
}


/// Recording one freshly written item extends a complete report.
pub proof fn lemma_report_step<W, C, CCtor>(
    pre: Layout<W, C, CCtor>,
    post: Layout<W, C, CCtor>,
    s0: Layout<W, C, CCtor>,
    out_bw: Seq<LayoutAction<W, C>>,
    out_new: Seq<LayoutAction<W, C>>,
    base_len: int,
    repb: Map<ItemIdx, int>,
    repn: Map<ItemIdx, int>,
    ch: ItemIdx,
    nbv: WindowBounds,
)
    requires
        s0.same_structure(pre),
        pre.reports_changed(s0, out_bw, base_len, repb),
        forall|y: ItemIdx|
            y != ch && pre.live(y) ==> #[trigger] post.bounds_of(y) == pre.bounds_of(y),
        pre.live(ch),
        post.bounds_of(ch) == nbv,
        out_new == out_bw.push(LayoutAction::<W, C>::NewBounds { idx: ch, bounds: nbv }),
        repn == repb.insert(ch, out_bw.len() as int),
        0 <= base_len <= out_bw.len(),
    ensures
        post.reports_changed(s0, out_new, base_len, repn),
{
    assert forall|y: ItemIdx|
        s0.live(y) && post.bounds_of(y) != s0.bounds_of(y) implies #[trigger] repn.dom().contains(
        y,
    ) && base_len <= repn[y] < out_new.len() && out_new[repn[y]] == (LayoutAction::<
        W,
        C,
    >::NewBounds { idx: y, bounds: post.bounds_of(y) }) by {
        if y == ch {
            assert(repn[y] == out_bw.len() as int);
            assert(out_new[repn[y]] == (LayoutAction::<W, C>::NewBounds {
                idx: ch,
                bounds: nbv,
            }));
        } else {
            match y {
                ItemIdx::Window(wi) => {
                    assert(s0.live_w(wi as int) == pre.live_w(wi as int));
                },
                ItemIdx::Container(ci) => {
                    assert(s0.live_c(ci as int) == pre.live_c(ci as int));
                },
            }
            assert(pre.live(y));
            assert(post.bounds_of(y) == pre.bounds_of(y));
            assert(pre.bounds_of(y) != s0.bounds_of(y));
            assert(repb.dom().contains(y));
            assert(base_len <= repb[y] < out_bw.len());
            assert(out_bw[repb[y]] == (LayoutAction::<W, C>::NewBounds {
                idx: y,
                bounds: pre.bounds_of(y),
            }));
            assert(repn[y] == repb[y]);
            assert(out_new[repn[y]] == out_bw[repb[y]]);
        }
    }
}


impl<W, C, CCtor> Layout<W, C, CCtor> {
    /// The two states have identical structure: the same live slots,
    /// parents, child lists, weights, axes, paddings, gaps and payloads.
    /// Only stored bounds may differ.
    pub open spec fn same_structure(self, other: Self) -> bool {
        &&& other.windows@.len() == self.windows@.len()
        &&& other.containers@.len() == self.containers@.len()
        &&& forall|i: int| self.live_w(i) == other.live_w(i)
        &&& forall|i: int| self.live_c(i) == other.live_c(i)
        &&& forall|i: int|
            self.live_w(i) ==> other.winat(i) == (Window {
                bounds: other.winat(i).bounds,
                ..self.winat(i)
            })
        &&& forall|i: int|
            self.live_c(i) ==> other.ctrat(i) == (Container {
                bounds: other.ctrat(i).bounds,
                ..self.ctrat(i)
            })
        &&& other.root_bounds == self.root_bounds
        &&& other.default_padding == self.default_padding
        &&& other.cctor == self.cctor
    }

    /// Total weight of container `c`'s children.
    pub open spec fn total_weight(self, c: int) -> int {
        sum_weights(self.kids(c))
    }

    /// Summed weight of the first `i` children of container `c`.
    pub open spec fn prefix_weight(self, c: int, i: int) -> int {
        sum_weights(self.kids(c).take(i))
    }

    /// The area left for children once padding and inter-child gaps are
    /// taken out of a container's bounds (never negative).
    pub open spec fn spec_available_area(self, c: int) -> AreaSize {
        let ctr = self.ctrat(c);
        let ti = ctr.inter * sat_sub(ctr.children@.len() as int, 1);
        match ctr.strategy {
            LayoutStrategy::Vertical => AreaSize {
                height: sat_sub(ctr.bounds.content.height as int, ti + 2 * ctr.padding) as usize,
                width: sat_sub(ctr.bounds.content.width as int, 2 * ctr.padding) as usize,
            },
            LayoutStrategy::Horizontal => AreaSize {
                height: sat_sub(ctr.bounds.content.height as int, 2 * ctr.padding) as usize,
                width: sat_sub(ctr.bounds.content.width as int, ti + 2 * ctr.padding) as usize,
            },
        }
    }

    /// The available extent along the container's own axis.
    pub open spec fn spec_available_length(self, c: int) -> int {
        match self.ctrat(c).strategy {
            LayoutStrategy::Horizontal => self.spec_available_area(c).width as int,
            LayoutStrategy::Vertical => self.spec_available_area(c).height as int,
        }
    }

    /// Where the first child begins on the x axis: the container's left
    /// edge, inset by the padding (clamped to the container's width, so a
    /// degenerate padding never pushes children past the far edge).
    pub open spec fn begin_x(self, c: int) -> int {
        let ctr = self.ctrat(c);
        ctr.bounds.position.x + min_int(ctr.padding as int, ctr.bounds.content.width as int)
    }

    /// Where the first child begins on the y axis.
    pub open spec fn begin_y(self, c: int) -> int {
        let ctr = self.ctrat(c);
        ctr.bounds.position.y + min_int(ctr.padding as int, ctr.bounds.content.height as int)
    }

    /// The cumulative main-axis offset of child `i`: the weight prefix's
    /// proportional share of the available length, rounded down.  Child
    /// `i` spans from offset `i` to offset `i + 1`, so rounding errors
    /// never accumulate.
    pub open spec fn child_offset(self, c: int, i: int) -> int {
        self.prefix_weight(c, i) * self.spec_available_length(c) / self.total_weight(c)
    }

    /// The bounds the solver assigns to child `i` of container `c`.
    #[verifier::opaque]
    pub open spec fn child_bounds_formula(self, c: int, i: int) -> WindowBounds {
        let avail = self.spec_available_area(c);
        match self.ctrat(c).strategy {
            LayoutStrategy::Horizontal => WindowBounds {
                position: Position {
                    x: (self.begin_x(c) + self.child_offset(c, i)) as usize,
                    y: self.begin_y(c) as usize,
                },
                content: AreaSize {
                    width: (self.child_offset(c, i + 1) - self.child_offset(c, i)) as usize,
                    height: avail.height,
                },
            },
            LayoutStrategy::Vertical => WindowBounds {
                position: Position {
                    x: self.begin_x(c) as usize,
                    y: (self.begin_y(c) + self.child_offset(c, i)) as usize,
                },
                content: AreaSize {
                    width: avail.width,
                    height: (self.child_offset(c, i + 1) - self.child_offset(c, i)) as usize,
                },
            },
        }
    }

    /// Every child of container `c` holds exactly the bounds the solver
    /// assigns it.
    pub open spec fn laid_out(self, c: int) -> bool {
        forall|i: int|
            0 <= i < self.kids(c).len() ==> self.bounds_of(#[trigger] self.kids(c)[i].1)
                == self.child_bounds_formula(c, i)
    }

    /// Every `NewBounds` record in `acts` names a live item and reports
    /// exactly the bounds that item now holds.
    pub open spec fn new_bounds_accurate(self, acts: Seq<LayoutAction<W, C>>) -> bool {
        forall|k: int|
            0 <= k < acts.len() ==> match #[trigger] acts[k] {
                LayoutAction::NewBounds { idx, bounds } => self.live(idx) && self.bounds_of(idx)
                    == bounds,
                _ => true,
            }
    }


    /// The extent of a live item along its parent's axis, in pixels;
    /// `None` for the root and for a window awaiting insertion.
    pub fn get_content_length(&self, item: ItemIdx) -> (r: Option<usize>)
        requires
            self.wf(),
            self.live(item),
        ensures
            r == match self.parent_of(item) {
                Option::Some(p) => Option::Some(
                    match self.ctrat(p as int).strategy {
                        LayoutStrategy::Horizontal => self.bounds_of(item).content.width,
                        LayoutStrategy::Vertical => self.bounds_of(item).content.height,
                    },
                ),
                Option::None => Option::<usize>::None,
            },
    {
        match self.slot_in_container(item) {
            Option::Some(slot) => {
                let b = self.bounds(item);
                Option::Some(
                    match slot.parent_strat {
                        LayoutStrategy::Horizontal => b.content.width,
                        LayoutStrategy::Vertical => b.content.height,
                    },
                )
            },
            Option::None => Option::None,
        }
    }

    /// The available area of a live container.
    pub fn ctr_available_area(&self, c_idx: usize) -> (r: AreaSize)
        requires
            self.wf(),
            self.live_c(c_idx as int),
        ensures
            r == self.spec_available_area(c_idx as int),
            r.width <= self.ctrat(c_idx as int).bounds.content.width,
            r.height <= self.ctrat(c_idx as int).bounds.content.height,
    {
        let ctr = self.containers[c_idx].as_ref().unwrap();
        let n = ctr.children.len();
        proof {
            assert(self.ctr_ok(c_idx as int, Option::None, Option::None));
        }
        let total_inter = ctr.inter * (if n >= 1 { n - 1 } else { 0 });
        let pad2 = 2 * ctr.padding;
        match ctr.strategy {
            LayoutStrategy::Vertical => AreaSize {
                height: if ctr.bounds.content.height >= total_inter + pad2 {
                    ctr.bounds.content.height - (total_inter + pad2)
                } else {
                    0
                },
                width: if ctr.bounds.content.width >= pad2 {
                    ctr.bounds.content.width - pad2
                } else {
                    0
                },
            },
            LayoutStrategy::Horizontal => AreaSize {
                height: if ctr.bounds.content.height >= pad2 {
                    ctr.bounds.content.height - pad2
                } else {
                    0
                },
                width: if ctr.bounds.content.width >= total_inter + pad2 {
                    ctr.bounds.content.width - (total_inter + pad2)
                } else {
                    0
                },
            },
        }
    }

    /// The available extent of a live container along its own axis.
    pub fn ctr_available_length(&self, c_idx: usize) -> (r: usize)
        requires
            self.wf(),
            self.live_c(c_idx as int),
        ensures
            r == self.spec_available_length(c_idx as int),
    {
        let strat = self.containers[c_idx].as_ref().unwrap().strategy;
        let avail = self.ctr_available_area(c_idx);
        match strat {
            LayoutStrategy::Horizontal => avail.width,
            LayoutStrategy::Vertical => avail.height,
        }
    }

    /// Overwrites the stored bounds of one live non-root item, leaving
    /// all structure untouched.
    pub(crate) fn set_bounds(&mut self, x: ItemIdx, nb: WindowBounds)
        requires
            old(self).wf(),
            old(self).live(x),
            x != ItemIdx::Container(0),
            bounds_ok(nb),
        ensures
            final(self).wf(),
            old(self).same_structure(*final(self)),
            final(self).bounds_of(x) == nb,
            forall|y: ItemIdx|
                y != x && old(self).live(y) ==> final(self).bounds_of(y) == old(self).bounds_of(y),
            forall|y: ItemIdx| final(self).parent_of(y) == old(self).parent_of(y),
            match x {
                ItemIdx::Window(i) => final(self).windows@ == old(self).windows@.update(
                    i as int,
                    Option::Some(Window { bounds: nb, ..old(self).winat(i as int) }),
                ) && final(self).containers == old(self).containers,
                ItemIdx::Container(i) => final(self).containers@ == old(self).containers@.update(
                    i as int,
                    Option::Some(Container { bounds: nb, ..old(self).ctrat(i as int) }),
                ) && final(self).windows == old(self).windows,
            },
    {
        match x {
            ItemIdx::Window(w_idx) => {
                self.win_mut(w_idx).bounds = nb;
            },
            ItemIdx::Container(c_idx) => {
                self.ctr_mut(c_idx).bounds = nb;
            },
        }
        proof {
            let s1 = *old(self);
            let s2 = *self;
            assert forall|y: ItemIdx| s2.parent_of(y) == s1.parent_of(y) by {}
            assert forall|x2: ItemIdx| s2.live(x2) implies s2.rooted(x2) by {
                assert(s1.live(x2));
                let nn = choose|nn: nat| s1.grounded(x2, nn);
                crate::ground::lemma_grounded_drop(s1, s2, x2, nn);
            }
            assert forall|i2: int| s2.live_c(i2) implies s2.ctr_ok(i2, Option::None, Option::None) by {
                assert(s1.live_c(i2));
                assert(s1.ctr_ok(i2, Option::None, Option::None));
                assert(s2.kids(i2) == s1.kids(i2));
                assert forall|j: int| 0 <= j < s2.kids(i2).len() implies s2.entry_ok(i2, j) by {
                    assert(s1.entry_ok(i2, j));
                }
                if i2 != 0 {
                    let p = s1.ctrat(i2).parent->Some_0;
                    assert(s1.has_entry(p as int, ItemIdx::Container(i2 as usize)));
                    assert(s2.kids(p as int) == s1.kids(p as int));
                }
            }
            assert forall|i2: int| s2.live_w(i2) implies s2.win_ok(i2, Option::None) by {
                assert(s1.live_w(i2));
                assert(s1.win_ok(i2, Option::None));
                if s1.winat(i2).parent is Some {
                    let p = s1.winat(i2).parent->Some_0;
                    assert(s2.kids(p as int) == s1.kids(p as int));
                }
            }
        }
    }

    /// Computes the bounds the solver assigns to every child of `c`,
    /// without touching any state: cumulative-rounded proportional
    /// shares along the container's axis, the full available extent
    /// across it.
    #[verifier::rlimit(100)]
    fn child_targets(&self, c: usize) -> (r: Vec<WindowBounds>)
        requires
            self.wf(),
            self.live_c(c as int),
        ensures
            r@.len() == self.kids(c as int).len(),
            forall|j: int|
                0 <= j < r@.len() ==> #[trigger] r@[j] == self.child_bounds_formula(c as int, j)
                    && bounds_ok(r@[j]),
    {
        proof {
            assert(self.ctr_ok(c as int, Option::None, Option::None));
        }
        let avail = self.ctr_available_area(c);
        let (strat, cbounds, padding, nkids) = {
            let ctr = self.containers[c].as_ref().unwrap();
            (ctr.strategy, ctr.bounds, ctr.padding, ctr.children.len())
        };
        let mut targets: Vec<WindowBounds> = Vec::new();
        if nkids == 0 {
            return targets;
        }
        proof {
            assert forall|k: int| 0 <= k < self.kids(c as int).len() implies 1 <= #[trigger] self.kids(
                c as int,
            )[k].0 <= MAX_WEIGHT by {
                assert(self.entry_ok(c as int, k));
            }
            lemma_sum_bounds(self.kids(c as int));
        }
        let mut total: u128 = 0;
        let mut i: usize = 0;
        while i < nkids
            invariant
                self.wf(),
                self.live_c(c as int),
                nkids == self.kids(c as int).len(),
                i <= nkids,
                total == sum_weights(self.kids(c as int).take(i as int)),
                total <= (i as int) * MAX_WEIGHT,
            decreases nkids - i,
        {
            proof {
                assert(self.ctr_ok(c as int, Option::None, Option::None));
                assert(self.entry_ok(c as int, i as int));
                lemma_sum_take_succ(self.kids(c as int), i as int);
            }
            let wt = self.containers[c].as_ref().unwrap().children[i].0;
            total = total + wt as u128;
            i += 1;
        }
        proof {
            lemma_sum_take_all(self.kids(c as int));
            lemma_sum_bounds(self.kids(c as int));
            assert(total as int == self.total_weight(c as int));
            assert(nkids <= total);
        }
        let bx = cbounds.position.x + (if padding <= cbounds.content.width {
            padding
        } else {
            cbounds.content.width
        });
        let by = cbounds.position.y + (if padding <= cbounds.content.height {
            padding
        } else {
            cbounds.content.height
        });
        let avail_main = match strat {
            LayoutStrategy::Horizontal => avail.width,
            LayoutStrategy::Vertical => avail.height,
        };
        proof {
            assert(bx + avail.width <= MAX_DIM);
            assert(by + avail.height <= MAX_DIM);
            assert(self.kids(c as int).take(0) =~= Seq::<(usize, ItemIdx)>::empty());
            assert(0int * self.spec_available_length(c as int) == 0) by (nonlinear_arith);
            vstd::arithmetic::div_mod::lemma_small_div_converse(0, self.total_weight(c as int));
        }
        let mut prefix: u128 = 0;
        let mut cur_off: usize = 0;
        let mut i: usize = 0;
        while i < nkids
            invariant
                self.wf(),
                self.live_c(c as int),
                nkids == self.kids(c as int).len(),
                0 < nkids <= total,
                i <= nkids,
                total as int == self.total_weight(c as int),
                total <= nkids as int * MAX_WEIGHT,
                avail == self.spec_available_area(c as int),
                avail_main as int == self.spec_available_length(c as int),
                strat == self.ctrat(c as int).strategy,
                bx as int == self.begin_x(c as int),
                by as int == self.begin_y(c as int),
                bx + avail.width <= MAX_DIM,
                by + avail.height <= MAX_DIM,
                avail_main <= MAX_DIM,
                prefix as int == self.prefix_weight(c as int, i as int),
                prefix <= total,
                cur_off as int == self.child_offset(c as int, i as int),
                cur_off <= avail_main,
                targets@.len() == i,
                forall|j: int|
                    0 <= j < i ==> #[trigger] targets@[j] == self.child_bounds_formula(c as int, j)
                        && bounds_ok(targets@[j]),
            decreases nkids - i,
        {
            proof {
                assert(self.ctr_ok(c as int, Option::None, Option::None));
                assert(self.entry_ok(c as int, i as int));
            }
            let wt = self.containers[c].as_ref().unwrap().children[i].0;
            proof {
                lemma_sum_take_succ(self.kids(c as int), i as int);
                assert forall|k: int| 0 <= k < self.kids(c as int).len() implies 1 <= #[trigger] self.kids(
                    c as int,
                )[k].0 <= MAX_WEIGHT by {
                    assert(self.entry_ok(c as int, k));
                }
                lemma_sum_take_mono(self.kids(c as int), i + 1, nkids as int);
                lemma_sum_take_all(self.kids(c as int));
            }
            let next_prefix = prefix + wt as u128;
            proof {
                assert(next_prefix as int == self.prefix_weight(c as int, i + 1));
                assert(next_prefix <= total);
                lemma_mul_upper_bound(
                    next_prefix as int,
                    total as int,
                    avail_main as int,
                    MAX_DIM as int,
                );
                assert(total as int * MAX_DIM <= (nkids as int * MAX_WEIGHT) * MAX_DIM) by {
                    lemma_mul_inequality(total as int, nkids as int * MAX_WEIGHT, MAX_DIM as int);
                }
                assert((nkids as int * MAX_WEIGHT) * MAX_DIM < u128::MAX) by (nonlinear_arith)
                    requires
                        0 <= nkids <= usize::MAX,
                        usize::MAX <= 0xffff_ffff_ffff_ffffu64,
                ;
                lemma_share_le_avail(next_prefix as int, total as int, avail_main as int);
                lemma_share_mono(
                    prefix as int,
                    next_prefix as int,
                    total as int,
                    avail_main as int,
                );
            }
            let q128 = next_prefix * (avail_main as u128) / total;
            let next_off = q128 as usize;
            let extent = next_off - cur_off;
            let nb = match strat {
                LayoutStrategy::Horizontal => WindowBounds {
                    position: Position { x: bx + cur_off, y: by },
                    content: AreaSize { width: extent, height: avail.height },
                },
                LayoutStrategy::Vertical => WindowBounds {
                    position: Position { x: bx, y: by + cur_off },
                    content: AreaSize { width: avail.width, height: extent },
                },
            };
            proof {
                reveal(Layout::child_bounds_formula);
                assert(nb == self.child_bounds_formula(c as int, i as int));
                assert(bounds_ok(nb));
            }
            targets.push(nb);
            prefix = next_prefix;
            cur_off = next_off;
            i += 1;
        }
        targets
    }

    /// Every item whose stored bounds differ between `base` and `self`
    /// is reported in `out` past `base_len`: `rep` names the index of a
    /// `NewBounds` record carrying the item's current bounds.
    pub open spec fn reports_changed(
        self,
        base: Self,
        out: Seq<LayoutAction<W, C>>,
        base_len: int,
        rep: Map<ItemIdx, int>,
    ) -> bool {
        forall|y: ItemIdx|
            base.live(y) && self.bounds_of(y) != base.bounds_of(y) ==> #[trigger] rep.dom().contains(y)
                && base_len <= rep[y] < out.len() && out[rep[y]] == (LayoutAction::<W, C>::NewBounds {
                idx: y,
                bounds: self.bounds_of(y),
            })
    }

    /// Applies the solver to the direct children of container `c`:
    /// children whose bounds change get a `NewBounds` action appended to
    /// `out`, and changed child containers are pushed onto `stack` for
    /// the caller to recurse into.  The ghost arguments describe the
    /// enclosing walk rooted at `c0`: `s0` is a snapshot sharing all
    /// parent pointers with the current state, the sets record which
    /// containers the walk has already finished, and `rep` maps each
    /// item changed since `s0` to its report in `out`.
    #[verifier::rlimit(100)]
    #[verifier::spinoff_prover]
    fn lay_children(
        &mut self,
        c: usize,
        out: &mut Vec<LayoutAction<W, C>>,
        stack: &mut Vec<usize>,
        Ghost(s0): Ghost<Layout<W, C, CCtor>>,
        Ghost(c0): Ghost<usize>,
        Ghost(processed): Ghost<Set<int>>,
        Ghost(processed_pre): Ghost<Set<int>>,
        Ghost(dc): Ghost<nat>,
        Ghost(dists): Ghost<Seq<nat>>,
        Ghost(base_len): Ghost<int>,
        Ghost(rep): Ghost<Map<ItemIdx, int>>,
    ) -> (gh: (Ghost<Seq<nat>>, Ghost<Map<ItemIdx, int>>))
        requires
            old(self).wf(),
            s0.wf(),
            s0.same_structure(*old(self)),
            forall|y: ItemIdx| old(self).parent_of(y) == s0.parent_of(y),
            old(self).live_c(c as int),
            old(self).live_c(c0 as int),
            processed == processed_pre.insert(c as int),
            !processed_pre.contains(c as int),
            s0.up_reaches(ItemIdx::Container(c), ItemIdx::Container(c0), dc),
            c != c0 ==> processed_pre.contains(c0 as int) && old(self).laid_out(c0 as int),
            forall|i2: int|
                #[trigger] processed_pre.contains(i2) ==> i2 == c0 as int || (s0.parent_of(
                    ItemIdx::Container(i2 as usize),
                ) matches Option::Some(q) && processed_pre.contains(q as int)),
            forall|k: int|
                0 <= k < old(stack)@.len() ==> old(self).live_c(#[trigger] old(stack)@[k] as int)
                    && !processed.contains(old(stack)@[k] as int),
            forall|k1: int, k2: int|
                0 <= k1 < k2 < old(stack)@.len() ==> old(stack)@[k1] != old(stack)@[k2],
            forall|k: int|
                0 <= k < old(stack)@.len() ==> #[trigger] old(stack)@[k] == c0 || (s0.parent_of(
                    ItemIdx::Container(old(stack)@[k]),
                ) matches Option::Some(q) && processed_pre.contains(q as int)),
            dists.len() == old(stack)@.len(),
            forall|k: int|
                0 <= k < old(stack)@.len() ==> s0.up_reaches(
                    ItemIdx::Container(#[trigger] old(stack)@[k]),
                    ItemIdx::Container(c0),
                    dists[k],
                ),
            forall|j: int|
                0 <= j < old(self).kids(c as int).len() ==> old(self).bounds_of(
                    #[trigger] old(self).kids(c as int)[j].1,
                ) == s0.bounds_of(old(self).kids(c as int)[j].1),
            0 <= base_len <= old(out)@.len(),
            old(self).reports_changed(s0, old(out)@, base_len, rep),
        ensures
            final(self).wf(),
            old(self).same_structure(*final(self)),
            forall|y: ItemIdx| final(self).parent_of(y) == old(self).parent_of(y),
            final(self).ctrat(c as int) == old(self).ctrat(c as int),
            final(self).ctrat(c0 as int) == old(self).ctrat(c0 as int),
            final(self).laid_out(c as int),
            c != c0 ==> final(self).laid_out(c0 as int),
            forall|y: ItemIdx|
                old(self).live(y) && s0.parent_of(y) != Option::Some(c) ==> final(self).bounds_of(
                    y,
                ) == old(self).bounds_of(y),
            final(stack)@.len() >= old(stack)@.len(),
            final(stack)@.take(old(stack)@.len() as int) == old(stack)@,
            forall|k: int|
                old(stack)@.len() <= k < final(stack)@.len() ==> {
                    &&& final(self).live_c(#[trigger] final(stack)@[k] as int)
                    &&& !processed.contains(final(stack)@[k] as int)
                    &&& s0.parent_of(ItemIdx::Container(final(stack)@[k])) == Option::Some(c)
                },
            gh.0@.len() == final(stack)@.len(),
            forall|k: int|
                0 <= k < final(stack)@.len() ==> s0.up_reaches(
                    ItemIdx::Container(#[trigger] final(stack)@[k]),
                    ItemIdx::Container(c0),
                    gh.0@[k],
                ),
            forall|k1: int, k2: int|
                0 <= k1 < k2 < final(stack)@.len() ==> final(stack)@[k1] != final(stack)@[k2],
            final(out)@.len() >= old(out)@.len(),
            final(out)@.take(old(out)@.len() as int) == old(out)@,
            forall|k: int|
                old(out)@.len() <= k < final(out)@.len() ==> match #[trigger] final(out)@[k] {
                    LayoutAction::NewBounds { idx, bounds } => {
                        &&& final(self).live(idx)
                        &&& final(self).bounds_of(idx) == bounds
                        &&& s0.parent_of(idx) == Option::Some(c)
                    },
                    _ => false,
                },
            final(self).reports_changed(s0, final(out)@, base_len, gh.1@),
    {
        let ghost stack_pre = old(stack)@;
        let ghost out0 = old(out)@;
        let ghost mut dists2 = dists;
        let ghost mut repv = rep;
        let ghost mut written: Set<ItemIdx> = Set::empty();
        let targets = self.child_targets(c);
        let nkids = targets.len();
        let ghost snap = self.ctrat(c as int);
        let mut i: usize = 0;
        while i < nkids
            invariant
                self.wf(),
                s0.wf(),
                s0.same_structure(*self),
                s0.same_structure(*old(self)),
                forall|y: ItemIdx| self.parent_of(y) == s0.parent_of(y),
                forall|y: ItemIdx| old(self).parent_of(y) == s0.parent_of(y),
                s0.live_c(c0 as int),
                self.live_c(c as int),
                self.ctrat(c as int) == snap,
                snap == old(self).ctrat(c as int),
                c != c0 ==> self.ctrat(c0 as int) == old(self).ctrat(c0 as int),
                c != c0 ==> processed_pre.contains(c0 as int) && self.laid_out(c0 as int),
                s0.up_reaches(ItemIdx::Container(c), ItemIdx::Container(c0), dc),
                processed == processed_pre.insert(c as int),
                !processed_pre.contains(c as int),
                forall|i2: int|
                    #[trigger] processed_pre.contains(i2) ==> i2 == c0 as int || (s0.parent_of(
                        ItemIdx::Container(i2 as usize),
                    ) matches Option::Some(q) && processed_pre.contains(q as int)),
                nkids == self.kids(c as int).len(),
                i <= nkids,
                targets@.len() == nkids,
                forall|j: int|
                    0 <= j < nkids ==> #[trigger] targets@[j] == self.child_bounds_formula(
                        c as int,
                        j,
                    ) && bounds_ok(targets@[j]),
                forall|j: int|
                    0 <= j < i ==> self.bounds_of(#[trigger] self.kids(c as int)[j].1)
                        == targets@[j],
                forall|j: int|
                    i <= j < nkids ==> self.bounds_of(#[trigger] self.kids(c as int)[j].1)
                        == s0.bounds_of(self.kids(c as int)[j].1),
                forall|y: ItemIdx|
                    old(self).live(y) && s0.parent_of(y) != Option::Some(c) ==> self.bounds_of(y)
                        == old(self).bounds_of(y),
                forall|j: int|
                    i <= j < nkids ==> !written.contains(#[trigger] self.kids(c as int)[j].1),
                stack@.len() >= stack_pre.len(),
                stack@.take(stack_pre.len() as int) == stack_pre,
                forall|k: int|
                    0 <= k < stack_pre.len() ==> self.live_c(#[trigger] stack_pre[k] as int)
                        && !processed.contains(stack_pre[k] as int),
                forall|k1: int, k2: int|
                    0 <= k1 < k2 < stack@.len() ==> stack@[k1] != stack@[k2],
                forall|k: int|
                    0 <= k < stack_pre.len() ==> #[trigger] stack_pre[k] == c0 || (s0.parent_of(
                        ItemIdx::Container(stack_pre[k]),
                    ) matches Option::Some(q) && processed_pre.contains(q as int)),
                forall|k: int|
                    stack_pre.len() <= k < stack@.len() ==> (exists|j: int|
                        0 <= j < i && self.kids(c as int)[j].1 == ItemIdx::Container(
                            #[trigger] stack@[k],
                        )),
                forall|k: int|
                    stack_pre.len() <= k < stack@.len() ==> self.live_c(
                        #[trigger] stack@[k] as int,
                    ) && !processed.contains(stack@[k] as int) && s0.parent_of(
                        ItemIdx::Container(stack@[k]),
                    ) == Option::Some(c),
                dists2.len() == stack@.len(),
                dists2.take(stack_pre.len() as int) == dists,
                forall|k: int|
                    0 <= k < stack@.len() ==> s0.up_reaches(
                        ItemIdx::Container(#[trigger] stack@[k]),
                        ItemIdx::Container(c0),
                        dists2[k],
                    ),
                out@.len() >= out0.len(),
                out@.take(out0.len() as int) == out0,
                0 <= base_len <= out0.len(),
                forall|k: int|
                    out0.len() <= k < out@.len() ==> match #[trigger] out@[k] {
                        LayoutAction::NewBounds { idx, bounds } => {
                            &&& self.live(idx)
                            &&& self.bounds_of(idx) == bounds
                            &&& s0.parent_of(idx) == Option::Some(c)
                            &&& written.contains(idx)
                        },
                        _ => false,
                    },
                self.reports_changed(s0, out@, base_len, repv),
            decreases nkids - i,
        {
            proof {
                assert(self.ctr_ok(c as int, Option::None, Option::None));
                assert(self.entry_ok(c as int, i as int));
            }
            let ch = self.containers[c].as_ref().unwrap().children[i].1;
            let nb = targets[i];
            proof {
                assert(s0.parent_of(ch) == Option::Some(c));
                assert(s0.live(ch));
                assert(ch != ItemIdx::Container(c)) by {
                    if ch == ItemIdx::Container(c) {
                        let nf = choose|nn: nat| s0.grounded(ch, nn);
                        assert(s0.grounded(ch, nf));
                        assert(s0.up_reaches(ItemIdx::Container(c), ch, 0));
                        assert(s0.up_reaches(ch, ch, 1));
                        crate::ground::lemma_no_cycle(s0, ch, nf, 1);
                    }
                }
                assert(ch != ItemIdx::Container(c0)) by {
                    if ch == ItemIdx::Container(c0) {
                        assert(s0.up_reaches(ch, ItemIdx::Container(c0), dc + 1));
                        let nf = choose|nn: nat| s0.grounded(ItemIdx::Container(c0), nn);
                        crate::ground::lemma_no_cycle(s0, ItemIdx::Container(c0), nf, dc + 1);
                    }
                }
            }
            let ob = self.bounds(ch);
            if !(nb == ob) {
                let ghost pre_write = *self;
                self.set_bounds(ch, nb);
                proof {
                    lemma_same_structure_trans(s0, pre_write, *self);
                    assert(self.ctrat(c as int) == snap);
                    lemma_formula_congruence(pre_write, *self, c as int);
                    if c != c0 {
                        assert(self.ctrat(c0 as int) == pre_write.ctrat(c0 as int));
                        lemma_formula_congruence(pre_write, *self, c0 as int);
                        assert forall|j: int|
                            0 <= j < self.kids(c0 as int).len() implies self.bounds_of(
                            #[trigger] self.kids(c0 as int)[j].1,
                        ) == self.child_bounds_formula(c0 as int, j) by {
                            assert(pre_write.entry_ok(c0 as int, j));
                            assert(pre_write.kids(c0 as int)[j].1 != ch);
                            assert(pre_write.bounds_of(pre_write.kids(c0 as int)[j].1)
                                == pre_write.child_bounds_formula(c0 as int, j));
                            assert(self.bounds_of(self.kids(c0 as int)[j].1)
                                == pre_write.bounds_of(pre_write.kids(c0 as int)[j].1));
                        }
                        assert(self.laid_out(c0 as int));
                    }
                    assert forall|j: int|
                        0 <= j < i implies self.bounds_of(#[trigger] self.kids(c as int)[j].1)
                        == targets@[j] by {
                        assert(pre_write.entry_ok(c as int, j));
                        assert(self.kids(c as int)[j].1 != ch);
                        assert(self.bounds_of(self.kids(c as int)[j].1) == pre_write.bounds_of(
                            pre_write.kids(c as int)[j].1,
                        ));
                    }
                    assert forall|j: int|
                        i + 1 <= j < nkids implies self.bounds_of(
                        #[trigger] self.kids(c as int)[j].1,
                    ) == s0.bounds_of(self.kids(c as int)[j].1) by {
                        assert(pre_write.entry_ok(c as int, j));
                        assert(self.kids(c as int)[j].1 != ch);
                        assert(self.bounds_of(self.kids(c as int)[j].1) == pre_write.bounds_of(
                            pre_write.kids(c as int)[j].1,
                        ));
                    }
                    assert forall|y: ItemIdx|
                        old(self).live(y) && s0.parent_of(y) != Option::Some(c)
                            implies self.bounds_of(y) == old(self).bounds_of(y) by {
                        assert(y != ch);
                        match y {
                            ItemIdx::Window(wi) => {
                                assert(s0.live_w(wi as int) == old(self).live_w(wi as int));
                                assert(s0.live_w(wi as int) == pre_write.live_w(wi as int));
                                assert(pre_write.live_w(wi as int));
                            },
                            ItemIdx::Container(ci) => {
                                assert(s0.live_c(ci as int) == old(self).live_c(ci as int));
                                assert(s0.live_c(ci as int) == pre_write.live_c(ci as int));
                                assert(pre_write.live_c(ci as int));
                            },
                        }
                        assert(self.bounds_of(y) == pre_write.bounds_of(y));
                    }
                }
                let ghost out_bw = out@;
                let ghost repv_bw = repv;
                out.push(LayoutAction::NewBounds { idx: ch, bounds: nb });
                proof {
                    repv = repv.insert(ch, out@.len() - 1);
                    written = written.insert(ch);
                    assert(out@.take(out0.len() as int) =~= out0);
                    assert(out@[out@.len() - 1] == (LayoutAction::<W, C>::NewBounds {
                        idx: ch,
                        bounds: nb,
                    }));
                    assert(self.kids(c as int)[i as int].1 == ch);
                    assert forall|j: int|
                        i + 1 <= j < nkids implies !written.contains(
                        #[trigger] self.kids(c as int)[j].1,
                    ) by {
                        assert(self.kids(c as int)[j].1 != ch);
                    }
                    assert forall|k: int|
                        out0.len() <= k < out@.len() implies match #[trigger] out@[k] {
                        LayoutAction::NewBounds { idx, bounds } => {
                            &&& self.live(idx)
                            &&& self.bounds_of(idx) == bounds
                            &&& s0.parent_of(idx) == Option::Some(c)
                            &&& written.contains(idx)
                        },
                        _ => false,
                    } by {
                        if k < out@.len() - 1 {
                            assert(out@[k] == out_bw[k]);
                            match out_bw[k] {
                                LayoutAction::NewBounds { idx, bounds } => {
                                    assert(idx != ch);
                                    assert(self.bounds_of(idx) == pre_write.bounds_of(idx));
                                },
                                _ => {},
                            }
                        }
                    }
                    lemma_report_step(
                        pre_write,
                        *self,
                        s0,
                        out_bw,
                        out@,
                        base_len,
                        repv_bw,
                        repv,
                        ch,
                        nb,
                    );
                }
                if let ItemIdx::Container(cc) = ch {
                    proof {
                        assert forall|k: int| 0 <= k < stack@.len() implies stack@[k] != cc by {
                            if stack@[k] == cc {
                                if k < stack_pre.len() {
                                    if stack_pre[k] == c0 {
                                        assert(ch == ItemIdx::Container(c0));
                                    } else {
                                        let q = s0.parent_of(
                                            ItemIdx::Container(stack_pre[k]),
                                        )->Some_0;
                                        assert(processed_pre.contains(q as int));
                                        assert(q == c);
                                    }
                                } else {
                                    let j = choose|j: int|
                                        0 <= j < i && self.kids(c as int)[j].1
                                            == ItemIdx::Container(stack@[k]);
                                    assert(self.kids(c as int)[i as int].1 == ch);
                                }
                            }
                        }
                        assert(!processed.contains(cc as int)) by {
                            if processed.contains(cc as int) {
                                if cc == c {
                                    assert(ch != ItemIdx::Container(c));
                                } else {
                                    assert(processed_pre.contains(cc as int));
                                    if cc as int == c0 as int {
                                        assert(ch == ItemIdx::Container(c0));
                                    } else {
                                        let q = s0.parent_of(ItemIdx::Container(cc))->Some_0;
                                        assert(processed_pre.contains(q as int));
                                        assert(q == c);
                                    }
                                }
                            }
                        }
                    }
                    stack.push(cc);
                    proof {
                        dists2 = dists2.push((dc + 1) as nat);
                        assert(stack@.take(stack_pre.len() as int) =~= stack_pre);
                        assert(dists2.take(stack_pre.len() as int) =~= dists);
                        assert(self.kids(c as int)[i as int].1 == ItemIdx::Container(cc));
                        assert(s0.up_reaches(
                            ItemIdx::Container(cc),
                            ItemIdx::Container(c0),
                            (dc + 1) as nat,
                        ));
                    }
                }
            }
            proof {
                assert(self.bounds_of(ch) == nb);
            }
            i += 1;
        }
        proof {
            assert forall|j: int|
                0 <= j < self.kids(c as int).len() implies self.bounds_of(
                #[trigger] self.kids(c as int)[j].1,
            ) == self.child_bounds_formula(c as int, j) by {
                assert(self.bounds_of(self.kids(c as int)[j].1) == targets@[j]);
            }
            assert(self.laid_out(c as int));
            lemma_same_structure_sym(s0, *old(self));
            lemma_same_structure_trans(*old(self), s0, *self);
        }
        (Ghost(dists2), Ghost(repv))
    }

    /// Recomputes the geometry of the subtree rooted at `item`: each
    /// child of a container receives its proportional share of the
    /// available length by cumulative rounding, the cross axis is filled
    /// completely, and a `NewBounds` action is recorded for every child
    /// whose bounds actually changed.  Child containers whose bounds
    /// changed are recomputed in turn; unchanged ones are left alone.
    /// Every appended action names a live item with exactly the bounds
    /// it now holds, and every item whose bounds changed is reported.
    #[verifier::rlimit(100)]
    #[verifier::spinoff_prover]
    pub(crate) fn layout(&mut self, item: ItemIdx, out: &mut Vec<LayoutAction<W, C>>)
        requires
            old(self).wf(),
            item matches ItemIdx::Container(c) ==> old(self).live_c(c as int),
        ensures
            final(self).wf(),
            old(self).same_structure(*final(self)),
            forall|y: ItemIdx| final(self).parent_of(y) == old(self).parent_of(y),
            item matches ItemIdx::Container(c) ==> final(self).laid_out(c as int)
                && final(self).ctrat(c as int) == old(self).ctrat(c as int),
            item is Window ==> *final(self) == *old(self),
            final(out)@.len() >= old(out)@.len(),
            final(out)@.take(old(out)@.len() as int) == old(out)@,
            final(self).new_bounds_accurate(final(out)@.skip(old(out)@.len() as int)),
            forall|k: int|
                old(out)@.len() <= k < final(out)@.len() ==> final(out)@[k] is NewBounds,
            forall|y: ItemIdx|
                old(self).live(y) && final(self).bounds_of(y) != old(self).bounds_of(y)
                    ==> exists|k: int|
                    old(out)@.len() <= k < final(out)@.len() && final(out)@[k]
                        == (LayoutAction::<W, C>::NewBounds {
                        idx: y,
                        bounds: final(self).bounds_of(y),
                    }),
    {
        let c0 = match item {
            ItemIdx::Window(_) => {
                return ;
            },
            ItemIdx::Container(c) => c,
        };
        let ghost s0 = *old(self);
        let ghost out0 = old(out)@;
        let mut stack: Vec<usize> = Vec::new();
        stack.push(c0);
        let ghost mut processed: Set<int> = Set::empty();
        let ghost mut dists: Seq<nat> = seq![0nat];
        let ghost mut rep: Map<ItemIdx, int> = Map::empty();
        proof {
            assert(self.up_reaches(ItemIdx::Container(c0), ItemIdx::Container(c0), 0));
        }
        while stack.len() > 0
            invariant
                self.wf(),
                s0.wf(),
                s0.live_c(c0 as int),
                s0.same_structure(*self),
                forall|y: ItemIdx| self.parent_of(y) == s0.parent_of(y),
                self.ctrat(c0 as int) == s0.ctrat(c0 as int),
                processed.finite(),
                processed.len() <= self.containers@.len(),
                forall|i2: int| #[trigger] processed.contains(i2) ==> self.live_c(i2),
                forall|k: int|
                    0 <= k < stack@.len() ==> self.live_c(#[trigger] stack@[k] as int)
                        && !processed.contains(stack@[k] as int),
                forall|k1: int, k2: int|
                    0 <= k1 < k2 < stack@.len() ==> stack@[k1] != stack@[k2],
                dists.len() == stack@.len(),
                forall|k: int|
                    0 <= k < stack@.len() ==> s0.up_reaches(
                        ItemIdx::Container(#[trigger] stack@[k]),
                        ItemIdx::Container(c0),
                        dists[k],
                    ),
                forall|k: int|
                    0 <= k < stack@.len() ==> #[trigger] stack@[k] == c0 || (s0.parent_of(
                        ItemIdx::Container(stack@[k]),
                    ) matches Option::Some(q) && processed.contains(q as int)),
                forall|i2: int|
                    #[trigger] processed.contains(i2) ==> i2 == c0 as int || (s0.parent_of(
                        ItemIdx::Container(i2 as usize),
                    ) matches Option::Some(q) && processed.contains(q as int)),
                if processed.contains(c0 as int) {
                    self.laid_out(c0 as int)
                } else {
                    processed =~= Set::<int>::empty() && stack@ =~= seq![c0]
                },
                forall|y: ItemIdx|
                    s0.live(y) && self.bounds_of(y) != s0.bounds_of(y) ==> (s0.parent_of(
                        y,
                    ) matches Option::Some(q) && processed.contains(q as int)),
                out@.len() >= out0.len(),
                out@.take(out0.len() as int) == out0,
                forall|k: int|
                    out0.len() <= k < out@.len() ==> match #[trigger] out@[k] {
                        LayoutAction::NewBounds { idx, bounds } => {
                            &&& self.live(idx)
                            &&& self.bounds_of(idx) == bounds
                            &&& s0.parent_of(idx) matches Option::Some(q) && processed.contains(
                                q as int,
                            )
                        },
                        _ => false,
                    },
                self.reports_changed(s0, out@, out0.len() as int, rep),
            decreases self.containers@.len() - processed.len(),
        {
            let c = match stack.pop() {
                Option::Some(c) => c,
                Option::None => unreached(),
            };
            let ghost dc = dists.last();
            proof {
                dists = dists.drop_last();
            }
            let ghost processed_pre = processed;
            let ghost pre_pass = *self;
            let ghost out_pre = out@;
            let ghost stack_mid = stack@;
            let ghost prepop = stack@.push(c);
            proof {
                processed = processed.insert(c as int);
                let rng = vstd::set_lib::set_int_range(0, self.containers@.len() as int);
                vstd::set_lib::lemma_int_range(0, self.containers@.len() as int);
                assert(processed.subset_of(rng));
                vstd::set_lib::lemma_len_subset(processed, rng);
                if !processed_pre.contains(c0 as int) {
                    assert(c == c0);
                }
                // The children of `c` still hold their snapshot bounds:
                // `c` was not processed yet.
                assert forall|j: int|
                    0 <= j < self.kids(c as int).len() implies self.bounds_of(
                    #[trigger] self.kids(c as int)[j].1,
                ) == s0.bounds_of(self.kids(c as int)[j].1) by {
                    assert(self.entry_ok(c as int, j));
                    assert(self.parent_of(self.kids(c as int)[j].1) == Option::Some(c));
                    if self.bounds_of(self.kids(c as int)[j].1) != s0.bounds_of(
                        self.kids(c as int)[j].1,
                    ) {
                        assert(s0.live(self.kids(c as int)[j].1));
                        assert(processed_pre.contains(c as int));
                    }
                }
            }
            let gh = self.lay_children(
                c,
                out,
                &mut stack,
                Ghost(s0),
                Ghost(c0),
                Ghost(processed),
                Ghost(processed_pre),
                Ghost(dc),
                Ghost(dists),
                Ghost(out0.len() as int),
                Ghost(rep),
            );
            proof {
                dists = gh.0@;
                rep = gh.1@;
                assert(out@.take(out0.len() as int) =~= out0);
                assert forall|k: int|
                    0 <= k < stack@.len() implies self.live_c(#[trigger] stack@[k] as int)
                    && !processed.contains(stack@[k] as int) by {
                    if k < stack_mid.len() {
                        assert(stack@.take(stack_mid.len() as int) == stack_mid);
                        assert(stack@[k] == stack_mid[k]);
                        assert(pre_pass.live_c(stack_mid[k] as int));
                        assert(self.live_c(stack_mid[k] as int));
                    }
                }
                assert forall|k: int|
                    0 <= k < stack@.len() implies #[trigger] stack@[k] == c0 || (s0.parent_of(
                    ItemIdx::Container(stack@[k]),
                ) matches Option::Some(q) && processed.contains(q as int)) by {
                    if k < stack_mid.len() {
                        assert(stack@[k] == stack_mid[k]);
                        assert(stack_mid[k] == c0 || (s0.parent_of(
                            ItemIdx::Container(stack_mid[k]),
                        ) matches Option::Some(q) && processed_pre.contains(q as int)));
                    } else {
                        assert(s0.parent_of(ItemIdx::Container(stack@[k])) == Option::Some(c));
                    }
                }
                assert forall|k: int|
                    out0.len() <= k < out@.len() implies match #[trigger] out@[k] {
                    LayoutAction::NewBounds { idx, bounds } => {
                        &&& self.live(idx)
                        &&& self.bounds_of(idx) == bounds
                        &&& s0.parent_of(idx) matches Option::Some(q) && processed.contains(
                            q as int,
                        )
                    },
                    _ => false,
                } by {
                    if k < out_pre.len() {
                        assert(out@[k] == out_pre[k]);
                        match out_pre[k] {
                            LayoutAction::NewBounds { idx, bounds } => {
                                let q = s0.parent_of(idx)->Some_0;
                                assert(processed_pre.contains(q as int));
                                assert(q != c);
                                assert(self.bounds_of(idx) == pre_pass.bounds_of(idx));
                            },
                            _ => {},
                        }
                    }
                }
                assert forall|y: ItemIdx|
                    s0.live(y) && self.bounds_of(y) != s0.bounds_of(y) implies s0.parent_of(
                    y,
                ) matches Option::Some(q) && processed.contains(q as int) by {
                    if pre_pass.bounds_of(y) != s0.bounds_of(y) {
                        assert(processed_pre.contains(s0.parent_of(y)->Some_0 as int));
                    } else {
                        assert(pre_pass.live(y));
                        assert(self.bounds_of(y) != pre_pass.bounds_of(y));
                        assert(s0.parent_of(y) == Option::Some(c));
                    }
                }
                assert forall|i2: int|
                    #[trigger] processed.contains(i2) implies i2 == c0 as int || (s0.parent_of(
                    ItemIdx::Container(i2 as usize),
                ) matches Option::Some(q) && processed.contains(q as int)) by {
                    if i2 != c0 as int && i2 != c as int {
                        assert(processed_pre.contains(i2));
                    }
                }
            }
        }
        proof {
            assert(processed.contains(c0 as int));
            let fin = final(out)@;
            assert forall|k2: int|
                0 <= k2 < out@.skip(out0.len() as int).len() implies match #[trigger] out@.skip(
                out0.len() as int,
            )[k2] {
                LayoutAction::NewBounds { idx, bounds } => self.live(idx) && self.bounds_of(idx)
                    == bounds,
                _ => true,
            } by {
                assert(out@.skip(out0.len() as int)[k2] == out@[k2 + out0.len()]);
            }
            assert forall|k: int|
                out0.len() <= k < out@.len() implies out@[k] is NewBounds by {}
            assert forall|y: ItemIdx|
                s0.live(y) && self.bounds_of(y) != s0.bounds_of(y) implies exists|k: int|
                out0.len() <= k < out@.len() && out@[k] == (LayoutAction::<W, C>::NewBounds {
                    idx: y,
                    bounds: self.bounds_of(y),
                }) by {
                assert(rep.dom().contains(y));
                assert(out@[rep[y]] == (LayoutAction::<W, C>::NewBounds {
                    idx: y,
                    bounds: self.bounds_of(y),
                }));
            }
        }
    }
}

} // verus!
