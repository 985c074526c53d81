use word2vec::matrix::Shape;

#[test]
fn rows_lie_one_after_the_other() {
    let shape = Shape::new(4, 3).unwrap();
    assert_eq!(shape.nrows(), 4);
    assert_eq!(shape.ncols(), 3);
    assert_eq!(shape.cells(), 12);
    assert_eq!(shape.row_span(0), (0, 3));
    assert_eq!(shape.row_span(1), (3, 6));
    assert_eq!(shape.row_span(3), (9, 12));
}

#[test]
fn a_matrix_without_cells() {
    let shape = Shape::new(0, 7).unwrap();
    assert_eq!(shape.cells(), 0);
    let shape = Shape::new(5, 0).unwrap();
    assert_eq!(shape.cells(), 0);
    assert_eq!(shape.row_span(4), (0, 0));
}

#[test]
fn a_matrix_with_too_many_cells_has_no_shape() {
    assert_eq!(Shape::new(usize::MAX, 2), None);
    assert_eq!(Shape::new(1 << (usize::BITS / 2), 1 << (usize::BITS / 2)), None);
    assert!(Shape::new(usize::MAX, 1).is_some());
    assert_eq!(Shape::new(usize::MAX, 1).unwrap().row_span(usize::MAX - 1), (usize::MAX - 1, usize::MAX));
}
