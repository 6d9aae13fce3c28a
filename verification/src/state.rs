//! Tree storage: the `Layout` arena, its mathematical view, and the
//! structural well-formedness invariant every operation preserves.

use vstd::prelude::*;
use crate::geom::{bounds_ok, Position, WindowBounds, MAX_PADDING, MAX_WEIGHT};
use crate::item::{ChildLocation, Constructor, Container, Direction, ItemIdx, LayoutDataMut, LayoutDataRef, LayoutStrategy, MoveCursor, SlotInContainer, Window};

verus! {

/// The layout tree: two growable slot arrays, tombstoned slots reused
/// before the backing array grows.  Slot 0 of `containers` is always the
/// root.  `W` is the per-window payload, `C` the per-container payload,
/// and `CCtor` the host-supplied factory for fresh container payloads.
#[derive(Debug, Clone)]
pub struct Layout<W, C, CCtor> {
    pub windows: Vec<Option<Window<W>>>,
    pub containers: Vec<Option<Container<C>>>,
    pub root_bounds: WindowBounds,
    pub default_padding: usize,
    pub cctor: Option<CCtor>,
}

impl<W, C, CCtor> Layout<W, C, CCtor> {
    /// Window slot `i` is in range and holds a live window.
    pub open spec fn live_w(self, i: int) -> bool {
        0 <= i < self.windows@.len() && self.windows@[i] is Some
    }

    /// Container slot `i` is in range and holds a live container.
    pub open spec fn live_c(self, i: int) -> bool {
        0 <= i < self.containers@.len() && self.containers@[i] is Some
    }

    /// The item index is live.
    pub open spec fn live(self, x: ItemIdx) -> bool {
        match x {
            ItemIdx::Window(i) => self.live_w(i as int),
            ItemIdx::Container(i) => self.live_c(i as int),
        }
    }

    /// The window in slot `i`.
    pub open spec fn winat(self, i: int) -> Window<W> {
        self.windows@[i]->Some_0
    }

    /// The container in slot `i`.
    pub open spec fn ctrat(self, i: int) -> Container<C> {
        self.containers@[i]->Some_0
    }

    /// The weighted child list of container `i`.
    pub open spec fn kids(self, i: int) -> Seq<(usize, ItemIdx)> {
        self.ctrat(i).children@
    }

    /// The parent pointer of a live item; `None` for the root, for a
    /// window awaiting insertion, and for anything dead.
    pub open spec fn parent_of(self, x: ItemIdx) -> Option<usize> {
        match x {
            ItemIdx::Window(i) => if self.live_w(i as int) {
                self.winat(i as int).parent
            } else {
                Option::None
            },
            ItemIdx::Container(i) => if self.live_c(i as int) {
                self.ctrat(i as int).parent
            } else {
                Option::None
            },
        }
    }

    /// The stored bounds of an item.
    pub open spec fn bounds_of(self, x: ItemIdx) -> WindowBounds {
        match x {
            ItemIdx::Window(i) => self.winat(i as int).bounds,
            ItemIdx::Container(i) => self.ctrat(i as int).bounds,
        }
    }

    /// Following parent pointers from `x` reaches a parentless item in at
    /// most `fuel` steps.  The well-formedness invariant demands a fuel
    /// for every live item, which is exactly acyclicity of the tree.
    pub open spec fn grounded(self, x: ItemIdx, fuel: nat) -> bool
        decreases fuel,
    {
        match self.parent_of(x) {
            Option::None => true,
            Option::Some(p) => fuel > 0 && self.grounded(
                ItemIdx::Container(p),
                (fuel - 1) as nat,
            ),
        }
    }

    /// Some fuel grounds `x`.
    pub open spec fn rooted(self, x: ItemIdx) -> bool {
        exists|n: nat| self.grounded(x, n)
    }

    /// `b` is reached from `a` by exactly `k` parent steps.
    pub open spec fn up_reaches(self, a: ItemIdx, b: ItemIdx, k: nat) -> bool
        decreases k,
    {
        if k == 0 {
            a == b
        } else {
            match self.parent_of(a) {
                Option::None => false,
                Option::Some(p) => self.up_reaches(ItemIdx::Container(p), b, (k - 1) as nat),
            }
        }
    }

    /// `anc` lies on `des`'s parent chain (`anc == des` included).
    pub open spec fn is_ancestor_of(self, anc: ItemIdx, des: ItemIdx) -> bool {
        exists|k: nat| self.up_reaches(des, anc, k)
    }

    /// Container `c` lists `x` among its children.
    pub open spec fn has_entry(self, c: int, x: ItemIdx) -> bool {
        exists|j: int| 0 <= j < self.kids(c).len() && self.kids(c)[j].1 == x
    }

    /// The index at which container `c` lists `x`.
    pub open spec fn index_of(self, c: int, x: ItemIdx) -> int {
        choose|j: int| 0 <= j < self.kids(c).len() && self.kids(c)[j].1 == x
    }

    /// Child entry `j` of container `i` is sound: a live non-root item
    /// whose parent pointer matches, with a positive bounded weight.
    pub open spec fn entry_ok(self, i: int, j: int) -> bool {
        let e = self.kids(i)[j];
        &&& self.live(e.1)
        &&& e.1 != ItemIdx::Container(0)
        &&& self.parent_of(e.1) == Option::Some(i as usize)
        &&& 1 <= e.0 <= MAX_WEIGHT
    }

    /// Container `i` is sound.  When `ex` names an item, that item is the
    /// one element currently detached by an in-progress move and is
    /// exempted from the attachment clauses.
    pub open spec fn ctr_ok(self, i: int, ex: Option<ItemIdx>, low: Option<int>) -> bool {
        let c = self.ctrat(i);
        &&& i == 0 ==> c.parent is None
        &&& i != 0 && low != Option::Some(i) ==> c.children@.len() >= 2
        &&& i != 0 && low == Option::Some(i) ==> c.children@.len() >= 1
        &&& i != 0 ==> (if ex == Option::Some(ItemIdx::Container(i as usize)) {
            c.parent is None
        } else {
            &&& c.parent is Some
            &&& self.live_c(c.parent->Some_0 as int)
            &&& self.has_entry(c.parent->Some_0 as int, ItemIdx::Container(i as usize))
        })
        &&& c.inter == 0
        &&& c.padding <= MAX_PADDING
        &&& bounds_ok(c.bounds)
        &&& forall|j: int| 0 <= j < c.children@.len() ==> self.entry_ok(i, j)
        &&& forall|j1: int, j2: int|
            0 <= j1 < j2 < c.children@.len() ==> c.children@[j1].1 != c.children@[j2].1
    }

    /// Window `i` is sound.
    pub open spec fn win_ok(self, i: int, ex: Option<ItemIdx>) -> bool {
        let w = self.winat(i);
        &&& bounds_ok(w.bounds)
        &&& (w.parent is Some && ex != Option::Some(ItemIdx::Window(i as usize)) ==> {
            &&& self.live_c(w.parent->Some_0 as int)
            &&& self.has_entry(w.parent->Some_0 as int, ItemIdx::Window(i as usize))
        })
    }

    /// Well-formedness, with an optional single detached item `ex`: `ex`
    /// is live, not the root, has a cleared parent pointer, and no child
    /// list mentions it; everything else obeys the full invariant.
    pub open spec fn wfx(self, ex: Option<ItemIdx>, low: Option<int>) -> bool {
        &&& self.containers@.len() >= 1
        &&& self.live_c(0)
        &&& self.ctrat(0).bounds == self.root_bounds
        &&& self.default_padding <= MAX_PADDING
        &&& self.cctor is Some
        &&& forall|i: int| self.live_c(i) ==> self.ctr_ok(i, ex, low)
        &&& forall|i: int| self.live_w(i) ==> self.win_ok(i, ex)
        &&& forall|x: ItemIdx| self.live(x) ==> self.rooted(x)
        &&& match ex {
            Option::Some(x) => {
                &&& self.live(x)
                &&& x != ItemIdx::Container(0)
                &&& self.parent_of(x) is None
            },
            Option::None => true,
        }
    }

    /// The structural invariant of a quiescent layout tree: slot 0 holds
    /// the parentless root; every other live item has exactly one parent,
    /// which lists it exactly once; every non-root container has at least
    /// two children (except while detached windows await insertion);
    /// weights are positive and bounded; all stored rectangles are
    /// bounded; and parent chains are acyclic.
    pub open spec fn wf(self) -> bool {
        self.wfx(Option::None, Option::None)
    }

    /// Well-formed except for one detached item.
    pub open spec fn wf_detached(self, x: ItemIdx) -> bool {
        self.wfx(Option::Some(x), Option::None)
    }

    /// Live and either the root or attached to a parent.
    pub open spec fn attached(self, x: ItemIdx) -> bool {
        self.live(x) && (x == ItemIdx::Container(0) || self.parent_of(x) is Some)
    }

    /// Mutable access to the live container in slot `c`.
    pub(crate) fn ctr_mut(&mut self, c: usize) -> (r: &mut Container<C>)
        requires
            old(self).live_c(c as int),
        ensures
            *r == old(self).ctrat(c as int),
            final(self).containers@ == old(self).containers@.update(
                c as int,
                Option::Some(*final(r)),
            ),
            final(self).windows == old(self).windows,
            final(self).root_bounds == old(self).root_bounds,
            final(self).default_padding == old(self).default_padding,
            final(self).cctor == old(self).cctor,
    {
        match &mut self.containers[c] {
            Option::Some(ctr) => ctr,
            Option::None => unreached(),
        }
    }

    /// Mutable access to the live window in slot `w`.
    pub(crate) fn win_mut(&mut self, w: usize) -> (r: &mut Window<W>)
        requires
            old(self).live_w(w as int),
        ensures
            *r == old(self).winat(w as int),
            final(self).windows@ == old(self).windows@.update(w as int, Option::Some(*final(r))),
            final(self).containers == old(self).containers,
            final(self).root_bounds == old(self).root_bounds,
            final(self).default_padding == old(self).default_padding,
            final(self).cctor == old(self).cctor,
    {
        match &mut self.windows[w] {
            Option::Some(win) => win,
            Option::None => unreached(),
        }
    }

    /// Whether the index refers to a live item.
    pub fn exists_item(&self, idx: ItemIdx) -> (r: bool)
        ensures
            r == self.live(idx),
    {
        match idx {
            ItemIdx::Container(c_idx) => match self.containers.get(c_idx) {
                Option::Some(slot) => slot.is_some(),
                Option::None => false,
            },
            ItemIdx::Window(w_idx) => match self.windows.get(w_idx) {
                Option::Some(slot) => slot.is_some(),
                Option::None => false,
            },
        }
    }

    /// The stored bounds of an item, or `None` when it is dead or out of
    /// range.
    pub fn try_bounds(&self, item: ItemIdx) -> (r: Option<WindowBounds>)
        ensures
            r == if self.live(item) {
                Option::Some(self.bounds_of(item))
            } else {
                Option::<WindowBounds>::None
            },
    {
        match item {
            ItemIdx::Container(c_idx) => match self.containers.get(c_idx) {
                Option::Some(slot) => match slot {
                    Option::Some(c) => Option::Some(c.bounds),
                    Option::None => Option::None,
                },
                Option::None => Option::None,
            },
            ItemIdx::Window(w_idx) => match self.windows.get(w_idx) {
                Option::Some(slot) => match slot {
                    Option::Some(w) => Option::Some(w.bounds),
                    Option::None => Option::None,
                },
                Option::None => Option::None,
            },
        }
    }

    /// The stored bounds of a live item.
    pub fn bounds(&self, item: ItemIdx) -> (r: WindowBounds)
        requires
            self.live(item),
        ensures
            r == self.bounds_of(item),
    {
        match self.try_bounds(item) {
            Option::Some(b) => b,
            Option::None => unreached(),
        }
    }

    /// The bounds the whole tree is laid out within.
    pub fn root_bounds(&self) -> (r: WindowBounds)
        ensures
            r == self.root_bounds,
    {
        self.root_bounds
    }

    /// The parent container of a live item; `None` for the root and for
    /// a window awaiting insertion.
    pub fn parent_container(&self, item: ItemIdx) -> (r: Option<usize>)
        requires
            self.live(item),
        ensures
            r == self.parent_of(item),
    {
        match item {
            ItemIdx::Window(idx) => self.windows[idx].as_ref().unwrap().parent,
            ItemIdx::Container(idx) => self.containers[idx].as_ref().unwrap().parent,
        }
    }

    /// How many children an item has; zero for windows.
    pub fn n_children(&self, item: ItemIdx) -> (r: usize)
        requires
            item is Container ==> self.live(item),
        ensures
            r == match item {
                ItemIdx::Window(_) => 0int,
                ItemIdx::Container(c) => self.kids(c as int).len() as int,
            },
    {
        match item {
            ItemIdx::Window(_) => 0,
            ItemIdx::Container(c_idx) => self.containers[c_idx].as_ref().unwrap().children.len(),
        }
    }

    /// The index at which container `c` lists `item`.
    pub(crate) fn find_child_index(&self, c: usize, item: ItemIdx) -> (r: usize)
        requires
            self.live_c(c as int),
            self.has_entry(c as int, item),
        ensures
            r < self.kids(c as int).len(),
            self.kids(c as int)[r as int].1 == item,
    {
        let ctr = self.containers[c].as_ref().unwrap();
        let n = ctr.children.len();
        let mut i: usize = 0;
        while i < n
            invariant
                n == self.kids(c as int).len(),
                ctr.children@ == self.kids(c as int),
                self.has_entry(c as int, item),
                i <= n,
                forall|j: int| 0 <= j < i ==> self.kids(c as int)[j].1 != item,
            decreases n - i,
        {
            if ctr.children[i].1 == item {
                return i;
            }
            i += 1;
        }
        proof {
            let j = choose|j: int|
                0 <= j < self.kids(c as int).len() && self.kids(c as int)[j].1 == item;
            assert(false);
        }
        unreached()
    }

    /// The index of a live item in its parent's child list, or `None`
    /// when it has no parent.
    pub fn index_in_parent(&self, item: ItemIdx) -> (r: Option<usize>)
        requires
            self.wf(),
            self.live(item),
        ensures
            match self.parent_of(item) {
                Option::Some(p) => {
                    &&& r is Some
                    &&& r->Some_0 < self.kids(p as int).len()
                    &&& self.kids(p as int)[r->Some_0 as int].1 == item
                },
                Option::None => r is None,
            },
    {
        match self.parent_container(item) {
            Option::Some(parent) => Option::Some(self.find_child_index(parent, item)),
            Option::None => Option::None,
        }
    }

    /// The location of a live item in its parent's child list, or `None`
    /// for the root and for a window awaiting insertion.
    pub fn child_location(&self, item: ItemIdx) -> (r: Option<ChildLocation>)
        requires
            self.wf(),
            self.live(item),
        ensures
            match self.parent_of(item) {
                Option::Some(p) => {
                    &&& r is Some
                    &&& r->Some_0.container == p
                    &&& r->Some_0.index < self.kids(p as int).len()
                    &&& self.kids(p as int)[r->Some_0.index as int].1 == item
                },
                Option::None => r is None,
            },
    {
        match self.parent_container(item) {
            Option::Some(container) => {
                let index = self.find_child_index(container, item);
                Option::Some(ChildLocation { container, index })
            },
            Option::None => Option::None,
        }
    }

    /// The item at a child location; `None` for the one-past-the-end
    /// index.
    pub fn item_from_child_location(&self, cl: ChildLocation) -> (r: Option<ItemIdx>)
        requires
            self.live_c(cl.container as int),
            cl.index <= self.kids(cl.container as int).len(),
        ensures
            r == if (cl.index as int) < self.kids(cl.container as int).len() {
                Option::Some(self.kids(cl.container as int)[cl.index as int].1)
            } else {
                Option::<ItemIdx>::None
            },
    {
        let ctr = self.containers[cl.container].as_ref().unwrap();
        if cl.index < ctr.children.len() {
            Option::Some(ctr.children[cl.index].1)
        } else {
            Option::None
        }
    }

    /// Where a live item sits in its parent, together with the parent's
    /// layout axis; `None` when it has no parent.
    pub fn slot_in_container(&self, item: ItemIdx) -> (r: Option<SlotInContainer>)
        requires
            self.wf(),
            self.live(item),
        ensures
            match self.parent_of(item) {
                Option::Some(p) => {
                    &&& r is Some
                    &&& r->Some_0.c_idx == p
                    &&& r->Some_0.index < self.kids(p as int).len()
                    &&& self.kids(p as int)[r->Some_0.index as int].1 == item
                    &&& r->Some_0.parent_strat == self.ctrat(p as int).strategy
                },
                Option::None => r is None,
            },
    {
        match self.parent_container(item) {
            Option::Some(p_ctr) => {
                let iip = self.find_child_index(p_ctr, item);
                let strat = self.containers[p_ctr].as_ref().unwrap().strategy;
                Option::Some(SlotInContainer { c_idx: p_ctr, index: iip, parent_strat: strat })
            },
            Option::None => Option::None,
        }
    }

    /// The item itself when it is a container, otherwise its parent.
    pub fn nearest_container(&self, item: ItemIdx) -> (r: usize)
        requires
            self.wf(),
            self.attached(item),
        ensures
            self.live_c(r as int),
            match item {
                ItemIdx::Container(c) => r == c,
                ItemIdx::Window(_) => Option::Some(r) == self.parent_of(item),
            },
    {
        match item {
            ItemIdx::Container(c_idx) => c_idx,
            ItemIdx::Window(_) => match self.parent_container(item) {
                Option::Some(p) => p,
                Option::None => unreached(),
            },
        }
    }

    /// Whether a cursor refers to a live anchor (and, for `Into`, an
    /// index no greater than the child count).
    pub fn is_cursor_valid(&self, cursor: MoveCursor) -> (r: bool)
        ensures
            r == match cursor {
                MoveCursor::Split { item, .. } => self.live(item),
                MoveCursor::Into { container, index } => self.live_c(container as int)
                    && index <= self.kids(container as int).len(),
            },
    {
        match cursor {
            MoveCursor::Split { item, direction: _ } => self.exists_item(item),
            MoveCursor::Into { container, index } => {
                if self.exists_item(ItemIdx::Container(container)) {
                    index <= self.containers[container].as_ref().unwrap().children.len()
                } else {
                    false
                }
            },
        }
    }

    /// The lowest-indexed live window whose bounds contain `position`.
    pub fn window_at(&self, position: Position) -> (r: Option<usize>)
        ensures
            match r {
                Option::Some(i) => {
                    &&& self.live_w(i as int)
                    &&& self.winat(i as int).bounds.spec_contains(position)
                    &&& forall|j: int|
                        0 <= j < i && self.live_w(j) ==> !self.winat(
                            j,
                        ).bounds.spec_contains(position)
                },
                Option::None => forall|j: int|
                    self.live_w(j) ==> !self.winat(j).bounds.spec_contains(position),
            },
    {
        let n = self.windows.len();
        let mut w_idx: usize = 0;
        while w_idx < n
            invariant
                n == self.windows@.len(),
                w_idx <= n,
                forall|j: int|
                    0 <= j < w_idx && self.live_w(j) ==> !self.winat(
                        j,
                    ).bounds.spec_contains(position),
            decreases n - w_idx,
        {
            match &self.windows[w_idx] {
                Option::Some(w) => {
                    if w.bounds.contains(position) {
                        return Option::Some(w_idx);
                    }
                },
                Option::None => {},
            }
            w_idx += 1;
        }
        Option::None
    }

    /// The canonical cursor describing a live item's current position:
    /// into its parent at its index, or a split of the root along the
    /// root's own axis when the item has no parent.
    pub fn cursor_before(&self, point: ItemIdx) -> (r: MoveCursor)
        requires
            self.wf(),
            self.live(point),
        ensures
            match self.parent_of(point) {
                Option::Some(p) => {
                    &&& r matches MoveCursor::Into { container, index } && container == p
                        && index < self.kids(p as int).len()
                        && self.kids(p as int)[index as int].1 == point
                },
                Option::None => r == (MoveCursor::Split {
                    item: ItemIdx::Container(0),
                    direction: if self.ctrat(0).strategy == LayoutStrategy::Horizontal {
                        Direction::Left
                    } else {
                        Direction::Up
                    },
                }),
            },
    {
        match self.parent_container(point) {
            Option::Some(parent) => MoveCursor::Into {
                container: parent,
                index: self.find_child_index(parent, point),
            },
            Option::None => MoveCursor::Split {
                item: ItemIdx::Container(0),
                direction: match self.containers[0].as_ref().unwrap().strategy {
                    LayoutStrategy::Horizontal => Direction::Left,
                    LayoutStrategy::Vertical => Direction::Up,
                },
            },
        }
    }

    /// A copy of a container's weighted child list.
    pub fn children(&self, container: usize) -> (r: Vec<(usize, ItemIdx)>)
        requires
            self.live_c(container as int),
        ensures
            r@ == self.kids(container as int),
    {
        let ctr = self.containers[container].as_ref().unwrap();
        let n = ctr.children.len();
        let mut out: Vec<(usize, ItemIdx)> = Vec::new();
        let mut i: usize = 0;
        while i < n
            invariant
                n == self.kids(container as int).len(),
                ctr.children@ == self.kids(container as int),
                i <= n,
                out@ == self.kids(container as int).take(i as int),
            decreases n - i,
        {
            out.push(ctr.children[i]);
            proof {
                assert(out@ =~= self.kids(container as int).take(i + 1));
            }
            i += 1;
        }
        proof {
            assert(out@ =~= self.kids(container as int));
        }
        out
    }

    /// The indices of all live windows, in ascending order.
    pub fn windows(&self) -> (r: Vec<usize>)
        ensures
            forall|k: int| 0 <= k < r@.len() ==> self.live_w(r@[k] as int),
            forall|j: int| self.live_w(j) ==> exists|k: int| 0 <= k < r@.len() && r@[k] == j,
            forall|k1: int, k2: int| 0 <= k1 < k2 < r@.len() ==> r@[k1] < r@[k2],
    {
        let n = self.windows.len();
        let mut out: Vec<usize> = Vec::new();
        let mut i: usize = 0;
        while i < n
            invariant
                n == self.windows@.len(),
                i <= n,
                forall|k: int| 0 <= k < out@.len() ==> self.live_w(out@[k] as int) && out@[k] < i,
                forall|k1: int, k2: int| 0 <= k1 < k2 < out@.len() ==> out@[k1] < out@[k2],
                forall|j: int|
                    0 <= j < i && self.live_w(j) ==> exists|k: int|
                        0 <= k < out@.len() && out@[k] == j,
            decreases n - i,
        {
            let ghost prev = out@;
            if self.windows[i].is_some() {
                out.push(i);
            }
            proof {
                assert forall|j: int| 0 <= j < i + 1 && self.live_w(j) implies exists|k: int|
                    0 <= k < out@.len() && out@[k] == j by {
                    if j == i {
                        assert(out@[out@.len() - 1] == i);
                    } else {
                        let k = choose|k: int| 0 <= k < prev.len() && prev[k] == j;
                        assert(out@[k] == j);
                    }
                }
            }
            i += 1;
        }
        out
    }

    /// Allocates a slot for a new window with the given payload, reusing
    /// the lowest tombstoned slot before growing the backing array.  The
    /// window starts detached (no parent) with zero bounds, awaiting
    /// insertion into the tree.
    pub fn alloc_window(&mut self, data: W) -> (r: usize)
        requires
            old(self).wf(),
        ensures
            final(self).wf(),
            final(self).live_w(r as int),
            !old(self).live_w(r as int),
            final(self).winat(r as int) == (Window {
                bounds: WindowBounds::spec_zero(),
                parent: Option::<usize>::None,
                data,
            }),
            final(self).containers == old(self).containers,
            final(self).root_bounds == old(self).root_bounds,
            final(self).default_padding == old(self).default_padding,
            final(self).cctor == old(self).cctor,
            forall|j: int|
                0 <= j < final(self).windows@.len() && j != r ==> final(self).windows@[j]
                    == if j < old(self).windows@.len() {
                    old(self).windows@[j]
                } else {
                    Option::<Window<W>>::None
                },
            final(self).windows@.len() == if (r as int) < old(self).windows@.len() {
                old(self).windows@.len() as int
            } else {
                old(self).windows@.len() + 1int
            },
            forall|x: ItemIdx|
                x != ItemIdx::Window(r) ==> final(self).parent_of(x) == old(self).parent_of(x),
            forall|j: int| 0 <= j < r ==> old(self).live_w(j),
    {
        let n = self.windows.len();
        let mut i: usize = 0;
        while i < n && self.windows[i].is_some()
            invariant
                n == self.windows@.len(),
                i <= n,
                forall|j: int| 0 <= j < i ==> self.windows@[j] is Some,
            decreases n - i,
        {
            i += 1;
        }
        let next_idx = i;
        if next_idx == n {
            self.windows.push(Option::None);
        }
        let ghost mid = *self;
        let slot = &mut self.windows[next_idx];
        *slot = Option::Some(
            Window { bounds: WindowBounds::zero(), parent: Option::None, data },
        );
        proof {
            let s1 = *old(self);
            let s2 = *self;
            assert(s2.windows@ == mid.windows@.update(
                next_idx as int,
                s2.windows@[next_idx as int],
            ));
            assert forall|y: ItemIdx| #![auto]
                s2.parent_of(y) == s1.parent_of(y) || s2.parent_of(y) is None by {}
            assert forall|x: ItemIdx| s2.live(x) implies s2.rooted(x) by {
                if x == ItemIdx::Window(next_idx) {
                    assert(s2.grounded(x, 0));
                } else {
                    assert(s1.live(x));
                    let nn = choose|nn: nat| s1.grounded(x, nn);
                    crate::ground::lemma_grounded_drop(s1, s2, x, nn);
                }
            }
            assert forall|i2: int| s2.live_c(i2) implies s2.ctr_ok(i2, Option::None, Option::None) by {
                assert(s1.live_c(i2));
                assert(s1.ctr_ok(i2, Option::None, Option::None));
                assert(s2.ctrat(i2) == s1.ctrat(i2));
                assert forall|j: int| 0 <= j < s2.kids(i2).len() implies s2.entry_ok(i2, j) by {
                    assert(s1.entry_ok(i2, j));
                    assert(s2.kids(i2)[j] == s1.kids(i2)[j]);
                    assert(s1.kids(i2)[j].1 != ItemIdx::Window(next_idx));
                }
                if i2 != 0 {
                    let p = s1.ctrat(i2).parent->Some_0;
                    assert(s1.has_entry(p as int, ItemIdx::Container(i2 as usize)));
                    assert(s2.kids(p as int) == s1.kids(p as int));
                }
            }
            assert forall|i2: int| s2.live_w(i2) implies s2.win_ok(i2, Option::None) by {
                if i2 != next_idx {
                    assert(s2.windows@[i2] == s1.windows@[i2]);
                    assert(s1.live_w(i2));
                    assert(s1.win_ok(i2, Option::None));
                    assert(s2.winat(i2) == s1.winat(i2));
                    if s1.winat(i2).parent is Some {
                        let p = s1.winat(i2).parent->Some_0;
                        assert(s2.kids(p as int) == s1.kids(p as int));
                    }
                }
            }
        }
        next_idx
    }

    /// Whether `ancestor` lies on `descendant`'s parent chain (an item
    /// is its own ancestor).
    pub fn is_ancestor(&self, ancestor: ItemIdx, descendant: ItemIdx) -> (r: bool)
        requires
            self.wf(),
            self.live(descendant),
        ensures
            r == self.is_ancestor_of(ancestor, descendant),
    {
        if ancestor == descendant {
            proof {
                assert(self.up_reaches(descendant, ancestor, 0));
            }
            return true;
        }
        let a_ctr = match ancestor {
            ItemIdx::Container(idx) => idx,
            ItemIdx::Window(_) => {
                proof {
                    assert forall|k: nat| !self.up_reaches(descendant, ancestor, k) by {
                        if self.up_reaches(descendant, ancestor, k) {
                            if k > 0 {
                                crate::ground::lemma_up_reaches_container(
                                    *self,
                                    descendant,
                                    ancestor,
                                    k,
                                );
                            }
                        }
                    }
                }
                return false;
            },
        };
        let mut cur = descendant;
        let ghost mut fuel: nat = choose|nn: nat| self.grounded(descendant, nn);
        loop
            invariant
                self.wf(),
                self.live(cur),
                cur != ancestor,
                self.grounded(cur, fuel),
                ancestor == ItemIdx::Container(a_ctr),
                self.is_ancestor_of(ancestor, descendant) == self.is_ancestor_of(ancestor, cur),
            decreases fuel,
        {
            match self.parent_container(cur) {
                Option::None => {
                    proof {
                        assert forall|k: nat| !self.up_reaches(cur, ancestor, k) by {
                            if k > 0 {
                                assert(self.parent_of(cur) is None);
                            }
                        }
                    }
                    return false;
                },
                Option::Some(p) => {
                    if p == a_ctr {
                        proof {
                            assert(self.up_reaches(ItemIdx::Container(p), ancestor, 0));
                            assert(self.up_reaches(cur, ancestor, 1));
                        }
                        return true;
                    }
                    proof {
                        let nxt = ItemIdx::Container(p);
                        assert forall|k: nat|
                            self.up_reaches(cur, ancestor, k) implies self.is_ancestor_of(
                            ancestor,
                            nxt,
                        ) by {
                            assert(k != 0);
                            assert(self.up_reaches(nxt, ancestor, (k - 1) as nat));
                        }
                        assert forall|k: nat|
                            self.up_reaches(nxt, ancestor, k) implies self.is_ancestor_of(
                            ancestor,
                            cur,
                        ) by {
                            assert(self.up_reaches(cur, ancestor, (k + 1) as nat));
                        }
                        assert(self.is_ancestor_of(ancestor, cur) == self.is_ancestor_of(
                            ancestor,
                            nxt,
                        ));
                    }
                    // A live item's parent is a live container, and the
                    // chain's fuel strictly shrinks.
                    proof {
                        fuel = (fuel - 1) as nat;
                    }
                    cur = ItemIdx::Container(p);
                },
            }
        }
    }

    /// The payload of an item, or `None` when it is dead or out of range.
    pub fn try_data(&self, item: ItemIdx) -> (r: Option<LayoutDataRef<'_, W, C>>)
        ensures
            r is Some <==> self.live(item),
            match r {
                Option::Some(d) => match item {
                    ItemIdx::Window(i) => d matches LayoutDataRef::Window(w) && *w == self.winat(
                        i as int,
                    ).data,
                    ItemIdx::Container(i) => d matches LayoutDataRef::Container(c) && *c
                        == self.ctrat(i as int).data,
                },
                Option::None => true,
            },
    {
        match item {
            ItemIdx::Window(w_idx) => match self.windows.get(w_idx) {
                Option::Some(slot) => match slot {
                    Option::Some(w) => Option::Some(LayoutDataRef::Window(&w.data)),
                    Option::None => Option::None,
                },
                Option::None => Option::None,
            },
            ItemIdx::Container(c_idx) => match self.containers.get(c_idx) {
                Option::Some(slot) => match slot {
                    Option::Some(c) => Option::Some(LayoutDataRef::Container(&c.data)),
                    Option::None => Option::None,
                },
                Option::None => Option::None,
            },
        }
    }

    /// The payload of a live window, or `None`.
    pub fn try_window_data(&self, w_idx: usize) -> (r: Option<&W>)
        ensures
            r is Some <==> self.live_w(w_idx as int),
            r is Some ==> *r->Some_0 == self.winat(w_idx as int).data,
    {
        match self.windows.get(w_idx) {
            Option::Some(slot) => match slot {
                Option::Some(w) => Option::Some(&w.data),
                Option::None => Option::None,
            },
            Option::None => Option::None,
        }
    }

    /// The payload of a live container, or `None`.
    pub fn try_container_data(&self, c_idx: usize) -> (r: Option<&C>)
        ensures
            r is Some <==> self.live_c(c_idx as int),
            r is Some ==> *r->Some_0 == self.ctrat(c_idx as int).data,
    {
        match self.containers.get(c_idx) {
            Option::Some(slot) => match slot {
                Option::Some(c) => Option::Some(&c.data),
                Option::None => Option::None,
            },
            Option::None => Option::None,
        }
    }

    /// Mutable access to the payload of an item, or `None` when it is
    /// dead or out of range.  Only the payload can change through the
    /// returned reference; the tree structure is untouched.
    pub fn try_data_mut(&mut self, item: ItemIdx) -> (r: Option<LayoutDataMut<'_, W, C>>)
        ensures
            r is Some <==> old(self).live(item),
            r is None ==> *final(self) == *old(self),
            match r {
                Option::Some(d) => match item {
                    ItemIdx::Window(i) => {
                        &&& d matches LayoutDataMut::Window(w)
                        &&& *w == old(self).winat(i as int).data
                        &&& final(self).windows@ == old(self).windows@.update(
                            i as int,
                            Option::Some(Window { data: *final(w), ..old(self).winat(i as int) }),
                        )
                        &&& final(self).containers == old(self).containers
                    },
                    ItemIdx::Container(i) => {
                        &&& d matches LayoutDataMut::Container(c)
                        &&& *c == old(self).ctrat(i as int).data
                        &&& final(self).containers@ == old(self).containers@.update(
                            i as int,
                            Option::Some(
                                Container { data: *final(c), ..old(self).ctrat(i as int) },
                            ),
                        )
                        &&& final(self).windows == old(self).windows
                    },
                },
                Option::None => true,
            },
            final(self).root_bounds == old(self).root_bounds,
            final(self).default_padding == old(self).default_padding,
            final(self).cctor == old(self).cctor,
    {
        match item {
            ItemIdx::Window(w_idx) => {
                if w_idx < self.windows.len() && self.windows[w_idx].is_some() {
                    match &mut self.windows[w_idx] {
                        Option::Some(w) => Option::Some(LayoutDataMut::Window(&mut w.data)),
                        Option::None => unreached(),
                    }
                } else {
                    Option::None
                }
            },
            ItemIdx::Container(c_idx) => {
                if c_idx < self.containers.len() && self.containers[c_idx].is_some() {
                    match &mut self.containers[c_idx] {
                        Option::Some(c) => Option::Some(LayoutDataMut::Container(&mut c.data)),
                        Option::None => unreached(),
                    }
                } else {
                    Option::None
                }
            },
        }
    }

    /// Mutable access to the payload of a live window, or `None`.
    pub fn try_window_data_mut(&mut self, w_idx: usize) -> (r: Option<&mut W>)
        ensures
            r is Some <==> old(self).live_w(w_idx as int),
            r is None ==> *final(self) == *old(self),
            r is Some ==> {
                &&& *r->Some_0 == old(self).winat(w_idx as int).data
                &&& final(self).windows@ == old(self).windows@.update(
                    w_idx as int,
                    Option::Some(
                        Window { data: *final(r->Some_0), ..old(self).winat(w_idx as int) },
                    ),
                )
                &&& final(self).containers == old(self).containers
                &&& final(self).root_bounds == old(self).root_bounds
                &&& final(self).default_padding == old(self).default_padding
                &&& final(self).cctor == old(self).cctor
            },
    {
        if w_idx < self.windows.len() && self.windows[w_idx].is_some() {
            match &mut self.windows[w_idx] {
                Option::Some(w) => Option::Some(&mut w.data),
                Option::None => unreached(),
            }
        } else {
            Option::None
        }
    }

    /// Mutable access to the payload of a live container, or `None`.
    pub fn try_container_data_mut(&mut self, c_idx: usize) -> (r: Option<&mut C>)
        ensures
            r is Some <==> old(self).live_c(c_idx as int),
            r is None ==> *final(self) == *old(self),
            r is Some ==> {
                &&& *r->Some_0 == old(self).ctrat(c_idx as int).data
                &&& final(self).containers@ == old(self).containers@.update(
                    c_idx as int,
                    Option::Some(
                        Container { data: *final(r->Some_0), ..old(self).ctrat(c_idx as int) },
                    ),
                )
                &&& final(self).windows == old(self).windows
                &&& final(self).root_bounds == old(self).root_bounds
                &&& final(self).default_padding == old(self).default_padding
                &&& final(self).cctor == old(self).cctor
            },
    {
        if c_idx < self.containers.len() && self.containers[c_idx].is_some() {
            match &mut self.containers[c_idx] {
                Option::Some(c) => Option::Some(&mut c.data),
                Option::None => unreached(),
            }
        } else {
            Option::None
        }
    }
}

impl<W, C, CCtor: Constructor<Item = C>> Layout<W, C, CCtor> {
    /// A fresh layout: no windows, and a single empty horizontal root
    /// container filling `bounds`.
    pub fn new(bounds: WindowBounds, cctor: CCtor, default_padding: usize) -> (r: Self)
        requires
            bounds_ok(bounds),
            default_padding <= MAX_PADDING,
        ensures
            r.wf(),
            r.windows@.len() == 0,
            r.containers@.len() == 1,
            r.kids(0).len() == 0,
            r.ctrat(0).strategy == LayoutStrategy::Horizontal,
            r.ctrat(0).padding == default_padding,
            r.root_bounds == bounds,
            r.ctrat(0).bounds == bounds,
            r.default_padding == default_padding,
    {
        let mut cctor = cctor;
        let root_data = cctor.construct();
        let mut containers: Vec<Option<Container<C>>> = Vec::new();
        containers.push(
            Option::Some(
                Container {
                    bounds,
                    children: Vec::new(),
                    inter: 0,
                    parent: Option::None,
                    strategy: LayoutStrategy::Horizontal,
                    data: root_data,
                    padding: default_padding,
                },
            ),
        );
        let this = Layout {
            windows: Vec::new(),
            containers,
            root_bounds: bounds,
            cctor: Option::Some(cctor),
            default_padding,
        };
        proof {
            assert forall|x: ItemIdx| this.live(x) implies this.rooted(x) by {
                assert(this.parent_of(x) is None);
                assert(this.grounded(x, 0));
            }
        }
        this
    }
}

} // verus!
