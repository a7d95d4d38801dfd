use qproj::mesh::{gen_list, gen_strip};

#[test]
fn mesh_test_stip() {
    let strip = gen_strip(4);
    //  0  1  2  3
    //  4  5  6  7
    //  8  9 10 11
    // 12 13 14 15
    let correct = vec![
        0, 4, 1, 5, 2, 6, 3, 7, 7, //
        4, 4, 8, 5, 9, 6, 10, 7, 11, 11, //
        8, 8, 12, 9, 13, 10, 14, 11, 15,
    ];
    // 0 4 1, 1 5 2, ...
    assert_eq!(strip, correct);
}

#[test]
fn test_list() {
    let list = gen_list(4);
    //  0  1  2  3
    //  4  5  6  7
    //  8  9 10 11
    // 12 13 14 15
    let correct = vec![
        // Row 0, Col 0
        0, 4, 1, 1, 4, 5, //
        // Row 0, Col 1
        1, 5, 2, 2, 5, 6, //
        // Row 0, Col 2
        2, 6, 3, 3, 6, 7, //
        // Row 1, Col 0
        4, 8, 5, 5, 8, 9, //
        // Row 1, Col 1
        5, 9, 6, 6, 9, 10, //
        // Row 1, Col 2
        6, 10, 7, 7, 10, 11, //
        // Row 2, Col 0
        8, 12, 9, 9, 12, 13, //
        // Row 2, Col 1
        9, 13, 10, 10, 13, 14, //
        // Row 2, Col 2
        10, 14, 11, 11, 14, 15,
    ];
    assert_eq!(list, correct);
}

#[test]
fn strip_of_small_grids() {
    assert_eq!(gen_strip(1), Vec::<u32>::new());
    assert_eq!(gen_strip(2), vec![0, 2, 1, 3]);
    assert_eq!(gen_strip(3), vec![0, 3, 1, 4, 2, 5, 5, 3, 3, 6, 4, 7, 5, 8]);
}

#[test]
fn list_of_small_grids() {
    assert_eq!(gen_list(1), Vec::<u32>::new());
    assert_eq!(gen_list(2), vec![0, 2, 1, 1, 2, 3]);
}

#[test]
fn list_has_six_indices_per_cell_and_stays_in_the_grid() {
    for n in 1..12usize {
        let list = gen_list(n);
        assert_eq!(list.len(), 6 * (n - 1) * (n - 1));
        assert!(list.iter().all(|&i| (i as usize) < n * n));
        let strip = gen_strip(n);
        assert!(strip.iter().all(|&i| (i as usize) < n * n));
    }
}
