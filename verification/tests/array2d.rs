use kvstore::array2d::Array2d;

#[test]
fn test_setup() {
    let arr: Array2d<i32> = Array2d::new(10, 5);
    assert_eq!(arr.height, 10);
    assert_eq!(arr.width, 5);
}

#[test]
fn test_array_read_value() {
    let arr: Array2d<i32> = Array2d::new(10, 5);
    for i in 0..10 {
        for j in 0..5 {
            assert_eq!(*arr.index((i, j)), 0);
        }
    }
}

#[test]
fn test_apply() {
    let arr: Array2d<i32> = Array2d::new(10, 5).apply(|x: &i32| x + 1);
    assert_eq!(arr.height, 10);
    assert_eq!(arr.width, 5);
    for i in 0..10 {
        for j in 0..5 {
            assert_eq!(*arr.index((i, j)), 1);
        }
    }
}

#[test]
fn test_array_write_value() {
    let mut arr: Array2d<i32> = Array2d::new(10, 5);
    arr.set((1, 2), 1);

    for i in 0..10 {
        for j in 0..5 {
            if i == 1 && j == 2 {
                assert_eq!(*arr.index((i, j)), 1);
            } else {
                assert_eq!(*arr.index((i, j)), 0);
            }
        }
    }
}

#[test]
fn test_cells_are_stored_row_by_row() {
    let mut arr: Array2d<u8> = Array2d::new(2, 3);
    arr.set((1, 0), 7);
    arr.set((0, 2), 9);
    assert_eq!(arr.data, vec![0, 0, 9, 7, 0, 0]);
}

#[test]
fn test_empty_array() {
    let arr: Array2d<u8> = Array2d::new(0, 5);
    assert_eq!(arr.data.len(), 0);
    let mapped: Array2d<char> = arr.apply(|_x: &u8| 'a');
    assert_eq!(mapped.data.len(), 0);
    assert_eq!(mapped.width, 5);
}

#[test]
fn test_apply_changes_the_cell_type() {
    let mut arr: Array2d<usize> = Array2d::new(1, 3);
    arr.set((0, 1), 4);
    arr.set((0, 2), 50);
    let glyphs = arr.apply(kvstore::render::render_value);
    assert_eq!(glyphs.data, vec![' ', '.', '+']);
}

#[test]
fn test_text_breaks_before_every_row() {
    let mut arr: Array2d<char> = Array2d::new(2, 3).apply(|_c: &char| '.');
    arr.set((0, 1), 'a');
    arr.set((1, 2), 'b');
    let text: String = arr.text().into_iter().collect();
    assert_eq!(text, "\n.a.\n..b");
    let empty: Array2d<char> = Array2d::new(3, 0);
    assert_eq!(empty.text(), Vec::<char>::new());
}
