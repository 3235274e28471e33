use midomoji_clone::dictionary::matrix_builder::MatrixBuilder;

#[test]
fn test_matrix_1() {
    let mut matrix = MatrixBuilder::new(100, 100);
    for l in 0i16..100 {
        for r in 0i16..100 {
            matrix.set(l as usize, r as usize, l * 100 + r);
        }
    }

    for l in 0i16..100 {
        for r in 0i16..100 {
            assert_eq!(l * 100 + r, matrix.get(l as usize, r as usize));
        }
    }
}

#[test]
fn matrix_starts_at_zero_and_keeps_dimensions() {
    let matrix = MatrixBuilder::new(3, 7);
    assert_eq!(3, matrix.get_left_max());
    assert_eq!(7, matrix.get_right_max());
    assert_eq!(21, matrix.get_matrix().len());
    assert!(matrix.get_matrix().iter().all(|&c| c == 0));
}

#[test]
fn matrix_set_touches_one_cell() {
    let mut matrix = MatrixBuilder::new(2, 3);
    matrix.set(1, 2, -5);
    assert_eq!(-5, matrix.get(1, 2));
    assert_eq!(vec![0, 0, 0, 0, 0, -5], matrix.get_matrix().to_vec());
}
