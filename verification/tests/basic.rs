use fwm::geom::{AreaSize, Position, WindowBounds};
use fwm::item::{Constructor, ItemIdx, MoveCursor};
use fwm::state::Layout;

struct Cc;

impl Constructor for Cc {
    type Item = u32;

    fn construct(&mut self) -> u32 {
        7
    }
}

fn bounds(x: usize, y: usize, w: usize, h: usize) -> WindowBounds {
    WindowBounds {
        content: AreaSize { height: h, width: w },
        position: Position { x, y },
    }
}

fn fresh() -> Layout<u8, u32, Cc> {
    Layout::new(bounds(0, 0, 900, 600), Cc, 0)
}

#[test]
fn new_layout_has_empty_root() {
    let l = fresh();
    assert!(l.exists_item(ItemIdx::Container(0)));
    assert_eq!(l.n_children(ItemIdx::Container(0)), 0);
    assert_eq!(l.root_bounds(), bounds(0, 0, 900, 600));
    assert_eq!(l.bounds(ItemIdx::Container(0)), bounds(0, 0, 900, 600));
}

#[test]
fn alloc_window_starts_detached() {
    let mut l = fresh();
    let w0 = l.alloc_window(11u8);
    assert!(l.exists_item(ItemIdx::Window(w0)));
    assert_eq!(l.parent_container(ItemIdx::Window(w0)), None);
    assert_eq!(l.bounds(ItemIdx::Window(w0)), bounds(0, 0, 0, 0));
    assert_eq!(l.try_window_data(w0), Some(&11u8));
}

#[test]
fn alloc_window_reuses_slots() {
    let mut l = fresh();
    let w0 = l.alloc_window(1u8);
    let w1 = l.alloc_window(2u8);
    assert_eq!(w0, 0);
    assert_eq!(w1, 1);
    let ws = l.windows();
    assert_eq!(ws, vec![0, 1]);
}

#[test]
fn contains_is_half_open() {
    let b = bounds(10, 20, 5, 5);
    assert!(b.contains(Position { x: 10, y: 20 }));
    assert!(b.contains(Position { x: 14, y: 24 }));
    assert!(!b.contains(Position { x: 15, y: 24 }));
    assert!(!b.contains(Position { x: 9, y: 20 }));
}

#[test]
fn cursor_before_parentless_is_root_split() {
    let l = fresh();
    let c = l.cursor_before(ItemIdx::Container(0));
    match c {
        MoveCursor::Split { item, direction } => {
            assert_eq!(item, ItemIdx::Container(0));
            assert_eq!(direction, fwm::item::Direction::Left);
        },
        _ => panic!("expected a split cursor"),
    }
}

#[test]
fn cursor_validity() {
    let mut l = fresh();
    assert!(l.is_cursor_valid(MoveCursor::Into { container: 0, index: 0 }));
    assert!(!l.is_cursor_valid(MoveCursor::Into { container: 0, index: 1 }));
    assert!(!l.is_cursor_valid(MoveCursor::Into { container: 5, index: 0 }));
    let w0 = l.alloc_window(0u8);
    assert!(l.is_cursor_valid(MoveCursor::Split {
        item: ItemIdx::Window(w0),
        direction: fwm::item::Direction::Up,
    }));
}

#[test]
fn window_at_finds_lowest_live_window() {
    let mut l = fresh();
    assert_eq!(l.window_at(Position { x: 1, y: 1 }), None);
    let _w0 = l.alloc_window(0u8);
    // Freshly allocated windows have empty bounds and match nothing.
    assert_eq!(l.window_at(Position { x: 0, y: 0 }), None);
}

#[test]
fn is_ancestor_of_self_and_root() {
    let mut l = fresh();
    let w0 = l.alloc_window(0u8);
    assert!(l.is_ancestor(ItemIdx::Window(w0), ItemIdx::Window(w0)));
    // A detached window is not under the root.
    assert!(!l.is_ancestor(ItemIdx::Container(0), ItemIdx::Window(w0)));
    assert!(l.is_ancestor(ItemIdx::Container(0), ItemIdx::Container(0)));
}

#[test]
fn available_area_subtracts_padding() {
    let l: Layout<u8, u32, Cc> = Layout::new(bounds(0, 0, 100, 80), Cc, 10);
    let a = l.ctr_available_area(0);
    assert_eq!(a.width, 80);
    assert_eq!(a.height, 60);
    assert_eq!(l.ctr_available_length(0), 80);
}

#[test]
fn payload_access_round_trip() {
    let mut l = fresh();
    let w0 = l.alloc_window(3u8);
    if let Some(d) = l.try_window_data_mut(w0) {
        *d = 9;
    }
    assert_eq!(l.try_window_data(w0), Some(&9u8));
    assert_eq!(l.try_container_data(0), Some(&7u32));
    assert!(l.try_data(ItemIdx::Window(w0)).is_some());
    assert!(l.try_data(ItemIdx::Window(99)).is_none());
}

#[test]
fn content_length_of_parentless_items_is_none() {
    let mut l = fresh();
    assert_eq!(l.get_content_length(ItemIdx::Container(0)), None);
    let w0 = l.alloc_window(0u8);
    assert_eq!(l.get_content_length(ItemIdx::Window(w0)), None);
}
