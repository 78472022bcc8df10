use turin::layout::{contains, pane_at, player_layout, split_last, Pane, Rect};

fn rect(x: u16, y: u16, width: u16, height: u16) -> Rect {
    Rect { x, y, width, height }
}

/// The number of cells from `start` on that a screen can have.
fn extent(start: u16, size: u16) -> u32 {
    u32::from(start.saturating_add(size)) - u32::from(start)
}

#[test]
fn player_layout_of_a_usual_screen() {
    let l = player_layout(rect(0, 0, 100, 40));
    assert_eq!(l.code, rect(0, 0, 60, 39));
    assert_eq!(l.body, rect(60, 0, 40, 39));
    assert_eq!(l.status, rect(0, 39, 100, 1));

    let l = player_layout(rect(3, 5, 83, 11));
    assert_eq!(l.code, rect(3, 5, 50, 10));
    assert_eq!(l.body, rect(53, 5, 33, 10));
    assert_eq!(l.status, rect(3, 15, 83, 1));
}

#[test]
fn player_layout_of_tiny_screens() {
    let l = player_layout(rect(0, 0, 0, 0));
    assert_eq!((l.code, l.body, l.status), (rect(0, 0, 0, 0), rect(0, 0, 0, 0), rect(0, 0, 0, 0)));
    let l = player_layout(rect(0, 0, 1, 1));
    assert_eq!((l.code, l.body, l.status), (rect(0, 0, 1, 1), rect(1, 0, 0, 1), rect(0, 1, 1, 0)));
    let l = player_layout(rect(0, 0, 2, 2));
    assert_eq!((l.code, l.body, l.status), (rect(0, 0, 1, 1), rect(1, 0, 1, 1), rect(0, 1, 2, 1)));
}

#[test]
fn player_layout_holds_for_every_size() {
    let starts: Vec<u16> = vec![0, 1, 7, 200, 32000, 65000, 65534, 65535];
    let mut sizes: Vec<u16> = (0..300).collect();
    sizes.extend([999, 1000, 4321, 32767, 32768, 40000, 65534, 65535]);
    for &start in starts.iter() {
        for &size in sizes.iter() {
            let s = extent(start, size);
            let l = player_layout(rect(start, 2, size, 10));
            let first = (6 * s + 5) / 10;
            assert_eq!(u32::from(l.code.width), first, "start {} size {}", start, size);
            assert_eq!(u32::from(l.body.width), s - first, "start {} size {}", start, size);
            assert_eq!(l.code.x, start);
            assert_eq!(u32::from(l.body.x), u32::from(start) + first);
            assert_eq!((l.code.y, l.code.height, l.body.y, l.body.height), (2, 9, 2, 9));

            let l = player_layout(rect(4, start, 20, size));
            let status = if s >= 2 { 1 } else { 0 };
            assert_eq!(u32::from(l.status.height), status, "start {} size {}", start, size);
            assert_eq!(u32::from(l.code.height), s - status);
            assert_eq!(u32::from(l.status.y), u32::from(start) + s - status);
            assert_eq!((l.status.x, l.status.width), (4, 20));
        }
    }
}

#[test]
fn split_last_keeps_a_cell_for_the_first() {
    for total in 0u16..60 {
        for n in [0u16, 1, 2, 5, 9, 30, 59, 60, 61, 1000, 65535] {
            let (a, b) = split_last(false, n, rect(10, 3, total, 1));
            let last = if total >= 1 { n.min(total - 1) } else { 0 };
            assert_eq!(a, rect(10, 3, total - last, 1), "total {} n {}", total, n);
            assert_eq!(b, rect(10 + total - last, 3, last, 1), "total {} n {}", total, n);
            let (a, b) = split_last(true, n, rect(3, 10, 7, total));
            assert_eq!(a, rect(3, 10, 7, total - last));
            assert_eq!(b, rect(3, 10 + total - last, 7, last));
        }
    }
}

#[test]
fn parts_tile_the_screen() {
    for width in 0u16..25 {
        for height in 0u16..8 {
            let area = rect(2, 1, width, height);
            let l = player_layout(area);
            for x in 0u16..30 {
                for y in 0u16..12 {
                    let parts = [l.code, l.body, l.status];
                    let owners = parts.iter().filter(|r| contains(**r, x, y)).count();
                    assert_eq!(owners, if contains(area, x, y) { 1 } else { 0 });
                }
            }
        }
    }
}

#[test]
fn pane_at_the_borders() {
    let area = rect(0, 0, 100, 40);
    assert_eq!(pane_at(area, 0, 0), Some(Pane::Code));
    assert_eq!(pane_at(area, 59, 38), Some(Pane::Code));
    assert_eq!(pane_at(area, 60, 38), Some(Pane::Commentary));
    assert_eq!(pane_at(area, 99, 0), Some(Pane::Commentary));
    assert_eq!(pane_at(area, 100, 0), None);
    assert_eq!(pane_at(area, 0, 39), None);
    assert_eq!(pane_at(area, 99, 39), None);
}

#[test]
fn contains_saturates_at_the_edge() {
    let r = rect(65530, 0, 100, 1);
    assert!(contains(r, 65534, 0));
    assert!(!contains(r, 65535, 0));
    assert!(!contains(r, 65529, 0));
}
