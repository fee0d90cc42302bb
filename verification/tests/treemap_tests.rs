use space_explorer::heat_map::HeatMap;
use space_explorer::nav::Navigator;
use space_explorer::scanner::FileEntry;
use space_explorer::treemap::Point;
use space_explorer::treemap::Rect;
use space_explorer::treemap::TreeMap;

fn entry(path: &str, size: u64, is_dir: bool) -> FileEntry {
    FileEntry { path: path.to_string(), size, created: 0, modified: 0, is_dir }
}

fn bounds(width: u64, height: u64) -> Rect {
    Rect { x: 0, y: 0, width, height }
}

#[test]
fn layout_of_no_entries_is_empty() {
    let mut map = TreeMap::new("/".to_string());
    map.update_layout(bounds(1000, 800));
    assert!(map.rects.is_empty());
}

#[test]
fn layout_of_zero_total_size_is_empty() {
    let mut map = TreeMap::new("/".to_string());
    map.entries = vec![entry("/a", 0, false), entry("/b", 0, false)];
    map.update_layout(bounds(1000, 800));
    assert!(map.rects.is_empty());
}

#[test]
fn layout_into_empty_bounds_is_empty() {
    let mut map = TreeMap::new("/".to_string());
    map.entries = vec![entry("/a", 10, false)];
    map.update_layout(bounds(0, 800));
    assert!(map.rects.is_empty());
    map.update_layout(bounds(1000, 0));
    assert!(map.rects.is_empty());
}

#[test]
fn three_files_share_one_row_proportionally() {
    let mut map = TreeMap::new("/r".to_string());
    map.entries = vec![entry("/r/a", 600, false), entry("/r/b", 300, false), entry("/r/c", 100, false)];
    map.update_layout(bounds(1000, 100));
    assert_eq!(map.rects.len(), 3);

    assert_eq!(map.rects[0].entry.path, "/r/a");
    assert_eq!(map.rects[0].bounds, Rect { x: 0, y: 0, width: 600, height: 100 });
    assert_eq!(map.rects[1].entry.path, "/r/b");
    assert_eq!(map.rects[1].bounds, Rect { x: 600, y: 0, width: 300, height: 100 });
    assert_eq!(map.rects[2].entry.path, "/r/c");
    assert_eq!(map.rects[2].bounds, Rect { x: 900, y: 0, width: 100, height: 100 });

    let area: u64 = map.rects.iter().map(|r| r.bounds.width * r.bounds.height).sum();
    assert_eq!(area, 1000 * 100);
}

#[test]
fn tall_bounds_stack_rows_downward() {
    let mut map = TreeMap::new("/r".to_string());
    map.entries = vec![entry("/r/a", 500, false), entry("/r/b", 500, false)];
    map.update_layout(bounds(100, 1000));
    assert_eq!(map.rects.len(), 2);
    assert_eq!(map.rects[0].bounds, Rect { x: 0, y: 0, width: 100, height: 500 });
    assert_eq!(map.rects[1].bounds, Rect { x: 0, y: 500, width: 100, height: 500 });
}

#[test]
fn layout_is_a_pure_function_of_its_inputs() {
    let entries = vec![
        entry("/p/a", 123, false),
        entry("/p/b", 456, true),
        entry("/p/c", 789, false),
        entry("/p/d", 456, false),
    ];
    let mut first = TreeMap::new("/p".to_string());
    first.entries = entries.clone();
    first.update_layout(bounds(640, 480));
    let mut second = TreeMap::new("/p".to_string());
    second.entries = entries;
    second.update_layout(bounds(640, 480));
    assert_eq!(first.rects.len(), second.rects.len());
    for (a, b) in first.rects.iter().zip(second.rects.iter()) {
        assert_eq!(a.bounds, b.bounds);
        assert_eq!(a.entry.path, b.entry.path);
        assert_eq!(a.entry.size, b.entry.size);
    }
}

#[test]
fn no_two_rectangles_overlap() {
    let mut map = TreeMap::new("/r".to_string());
    map.entries = vec![
        entry("/r/a", 600, false),
        entry("/r/b", 300, false),
        entry("/r/c", 100, false),
        entry("/r/d", 250, false),
        entry("/r/e", 75, false),
    ];
    map.update_layout(bounds(1000, 800));
    for i in 0..map.rects.len() {
        for j in (i + 1)..map.rects.len() {
            let a = map.rects[i].bounds;
            let b = map.rects[j].bounds;
            let separated = a.x + a.width <= b.x || b.x + b.width <= a.x || a.y + a.height <= b.y
                || b.y + b.height <= a.y;
            assert!(separated, "rectangles {} and {} overlap", i, j);
        }
    }
    let area: u64 = map.rects.iter().map(|r| r.bounds.width * r.bounds.height).sum();
    assert!(area <= 1000 * 800);
}

#[test]
fn center_of_each_rectangle_hits_its_own_entry() {
    let mut map = TreeMap::new("/r".to_string());
    map.entries = vec![
        entry("/r/a", 600, false),
        entry("/r/b", 300, false),
        entry("/r/c", 100, false),
        entry("/r/d", 250, false),
    ];
    map.update_layout(bounds(1000, 800));
    assert!(!map.rects.is_empty());
    for i in 0..map.rects.len() {
        let b = map.rects[i].bounds;
        let center = Point { x: b.x + b.width / 2, y: b.y + b.height / 2 };
        let hit = map.find_item_at(center).expect("center of a placed rectangle must hit");
        assert_eq!(hit.entry.path, map.rects[i].entry.path);
    }
}

#[test]
fn point_outside_every_rectangle_hits_nothing() {
    let mut map = TreeMap::new("/r".to_string());
    map.entries = vec![entry("/r/a", 600, false)];
    map.update_layout(bounds(1000, 100));
    assert!(map.find_item_at(Point { x: 5000, y: 5000 }).is_none());
}

#[test]
fn heat_map_starts_empty() {
    let h = HeatMap::new();
    assert!(h.entries.is_empty());
}

#[test]
fn navigator_tracks_selection_and_roots() {
    let mut nav = Navigator::new("/home/user".to_string());
    assert_eq!(nav.root_path, "/home/user");
    assert_eq!(nav.initial_root_path, "/home/user");
    assert!(nav.selected.is_none());

    nav.select(Some("/home/user/docs".to_string()));
    assert_eq!(nav.selected.as_deref(), Some("/home/user/docs"));

    // not a directory: no drill-down, nothing changes
    assert!(!nav.drill_down(false));
    assert_eq!(nav.root_path, "/home/user");

    // a directory: the selection becomes the root and a rescan is due
    assert!(nav.drill_down(true));
    assert_eq!(nav.root_path, "/home/user/docs");
    assert_eq!(nav.initial_root_path, "/home/user");

    // drilling up moves to the parent and releases the selection
    assert!(nav.drill_up(Some("/home/user".to_string())));
    assert_eq!(nav.root_path, "/home/user");
    assert!(nav.selected.is_none());

    // back at the initial root: drilling up stops
    assert!(!nav.drill_up(Some("/home".to_string())));
    assert_eq!(nav.root_path, "/home/user");
}

#[test]
fn navigator_without_selection_cannot_drill_down() {
    let mut nav = Navigator::new("/".to_string());
    assert!(!nav.drill_down(true));
    assert_eq!(nav.root_path, "/");
}

#[test]
fn navigator_set_root_starts_a_new_session() {
    let mut nav = Navigator::new("/a".to_string());
    nav.select(Some("/a/b".to_string()));
    nav.set_root("/c".to_string());
    assert_eq!(nav.root_path, "/c");
    assert_eq!(nav.initial_root_path, "/c");
    assert!(nav.selected.is_none());
    // the new session's initial root now bounds drill-up
    assert!(!nav.drill_up(Some("/".to_string())));
}
