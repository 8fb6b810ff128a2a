use logcore::bookmarks::{BookmarkDirection, BookmarkStore};
use logcore::mmap_source::{next_read_ahead_range, read_ahead_window};

#[test]
fn toggle_and_list_sorted_bookmarks() {
    let mut store = BookmarkStore::new();
    assert!(store.toggle(8));
    assert!(store.toggle(2));
    assert!(store.toggle(5));
    assert!(!store.toggle(2));
    assert_eq!(store.list(), vec![5, 8]);
    assert!(store.contains(5));
    assert!(!store.contains(2));
}

#[test]
fn next_and_previous_wrap() {
    let mut store = BookmarkStore::new();
    for line in [3, 9, 12] {
        store.toggle(line);
    }
    assert_eq!(store.next(3, BookmarkDirection::Next), Some(9));
    assert_eq!(store.next(12, BookmarkDirection::Next), Some(3));
    assert_eq!(store.next(9, BookmarkDirection::Previous), Some(3));
    assert_eq!(store.next(3, BookmarkDirection::Previous), Some(12));
    assert_eq!(store.next(4, BookmarkDirection::Next), Some(9));
    assert_eq!(store.next(4, BookmarkDirection::Previous), Some(3));
}

#[test]
fn line_zero_is_never_bookmarked_and_empty_store_has_no_next() {
    let mut store = BookmarkStore::from_lines(vec![0, 4, 4, 2]);
    assert_eq!(store.list(), vec![2, 4]);
    assert!(!store.toggle(0));
    assert_eq!(BookmarkStore::new().next(1, BookmarkDirection::Next), None);
    assert_eq!(store.next(u64::MAX, BookmarkDirection::Next), Some(2));
    assert_eq!(store.next(0, BookmarkDirection::Previous), Some(4));
}

#[test]
fn rolling_read_ahead_is_bounded_clamped_and_refilled_at_low_water() {
    assert_eq!(next_read_ahead_range(0, 0, 200, 64, 32), Some((0, 64, 64)));
    assert_eq!(next_read_ahead_range(31, 64, 200, 64, 32), None);
    assert_eq!(next_read_ahead_range(32, 64, 200, 64, 32), Some((64, 64, 128)));
    assert_eq!(next_read_ahead_range(160, 128, 200, 64, 32), Some((160, 40, 200)));
    assert_eq!(next_read_ahead_range(200, 200, 200, 64, 32), None);
    assert_eq!(next_read_ahead_range(usize::MAX - 4, 0, usize::MAX, 64, 32), Some((usize::MAX - 4, 4, usize::MAX)));
}

#[test]
fn toggling_a_line_twice_restores_the_bookmarks() {
    let mut store = BookmarkStore::new();
    store.toggle(3);
    store.toggle(9);
    let before = store.list();
    assert!(store.toggle(4));
    assert!(!store.toggle(4));
    assert_eq!(store.list(), before);
    assert!(!store.toggle(9));
    assert!(store.toggle(9));
    assert_eq!(store.list(), before);
}

#[test]
fn read_ahead_window_is_cut_at_the_mapping() {
    assert_eq!(read_ahead_window(10, 20, 100), Some((10, 20)));
    assert_eq!(read_ahead_window(90, 20, 100), Some((90, 10)));
    assert_eq!(read_ahead_window(100, 20, 100), None);
    assert_eq!(read_ahead_window(5, usize::MAX, 8), Some((5, 3)));
}
