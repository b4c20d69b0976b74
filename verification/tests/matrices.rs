use rsahp::matrices::{check_matrices, check_matrix, check_vectors, ShapeError};

#[test]
fn single_matrices_must_be_square() {
    assert_eq!(check_matrix(&vec![3, 3, 3]), Ok(()));
    assert_eq!(check_matrix(&vec![]), Err(ShapeError::EmptyMatrix));
    assert_eq!(check_matrix(&vec![2, 3]), Err(ShapeError::NotSquare));
    assert_eq!(ShapeError::NotSquare.message(), "Matrix must be square");
    assert_eq!(ShapeError::EmptyMatrix.message(), "Empty matrix");
}

#[test]
fn aggregations_need_matching_square_matrices() {
    assert_eq!(check_matrices(&vec![vec![2, 2], vec![], vec![2, 2]]), Ok(2));
    assert_eq!(check_matrices(&vec![vec![2, 2], vec![2, 1]]), Err(ShapeError::MatricesNotSquare));
    assert_eq!(check_matrices(&vec![vec![], vec![]]), Err(ShapeError::NoMatrices));
    assert_eq!(check_matrices(&vec![vec![2, 2], vec![1]]), Err(ShapeError::MatrixSizesDiffer));
    assert_eq!(ShapeError::MatrixSizesDiffer.message(), "All matrices must be of the same size");
    assert_eq!(ShapeError::NoMatrices.message(), "No matrices provided");
    assert_eq!(ShapeError::MatricesNotSquare.message(), "All matrices must be square");
}

#[test]
fn aggregations_need_matching_vectors() {
    assert_eq!(check_vectors(&vec![2, 0, 2]), Ok(2));
    assert_eq!(check_vectors(&vec![0]), Err(ShapeError::NoVectors));
    assert_eq!(check_vectors(&vec![2, 3]), Err(ShapeError::VectorSizesDiffer));
    assert_eq!(ShapeError::NoVectors.message(), "No vectors provided");
    assert_eq!(ShapeError::VectorSizesDiffer.message(), "All vectors must be of the same size");
}
