//! The shape rules of the AHP calculations: which matrices and vectors the
//! server accepts before it computes anything (the arithmetic itself, on
//! floating-point numbers, is done by the server program).

use vstd::prelude::*;

verus! {

/// Why a calculation request is refused.
#[derive(PartialEq, Eq, Structural, Clone, Copy, Debug)]
pub enum ShapeError {
    /// A matrix without rows.
    EmptyMatrix,
    /// A matrix whose rows are not as long as it has rows.
    NotSquare,
    /// An aggregation with a non-empty matrix that is not square.
    MatricesNotSquare,
    /// An aggregation without any (non-empty) matrix.
    NoMatrices,
    /// An aggregation of matrices of different sizes.
    MatrixSizesDiffer,
    /// An aggregation without any (non-empty) vector.
    NoVectors,
    /// An aggregation of vectors of different lengths.
    VectorSizesDiffer,
}

impl ShapeError {
    /// The message the server answers with.
    pub fn message(&self) -> (r: String)
        ensures
            r@ == match self {
                ShapeError::EmptyMatrix => "Empty matrix"@,
                ShapeError::NotSquare => "Matrix must be square"@,
                ShapeError::MatricesNotSquare => "All matrices must be square"@,
                ShapeError::NoMatrices => "No matrices provided"@,
                ShapeError::MatrixSizesDiffer => "All matrices must be of the same size"@,
                ShapeError::NoVectors => "No vectors provided"@,
                ShapeError::VectorSizesDiffer => "All vectors must be of the same size"@,
            },
    {
        match self {
            ShapeError::EmptyMatrix => "Empty matrix".to_owned(),
            ShapeError::NotSquare => "Matrix must be square".to_owned(),
            ShapeError::MatricesNotSquare => "All matrices must be square".to_owned(),
            ShapeError::NoMatrices => "No matrices provided".to_owned(),
            ShapeError::MatrixSizesDiffer => "All matrices must be of the same size".to_owned(),
            ShapeError::NoVectors => "No vectors provided".to_owned(),
            ShapeError::VectorSizesDiffer => "All vectors must be of the same size".to_owned(),
        }
    }
}

/// Every row is as long as there are rows.
pub open spec fn is_square(rows: Seq<usize>) -> bool {
    forall|i: int| 0 <= i < rows.len() ==> rows[i] == rows.len()
}

/// Checks one matrix, given the lengths of its rows: it must have rows, and be square.
pub fn check_matrix(row_lengths: &Vec<usize>) -> (r: Result<(), ShapeError>)
    ensures
        r == (if row_lengths@.len() == 0 {
            Err(ShapeError::EmptyMatrix)
        } else if !is_square(row_lengths@) {
            Err(ShapeError::NotSquare)
        } else {
            Ok(())
        }),
{
    let n = row_lengths.len();
    if n == 0 {
        return Err(ShapeError::EmptyMatrix);
    }
    let mut i: usize = 0;
    while i < n
        invariant
            n == row_lengths@.len(),
            i <= n,
            forall|k: int| 0 <= k < i ==> row_lengths@[k] == n,
        decreases n - i,
    {
        if row_lengths[i] != n {
            return Err(ShapeError::NotSquare);
        }
        i += 1;
    }
    Ok(())
}

/// The matrices an aggregation keeps: the non-empty ones, in order.
pub open spec fn kept_sizes(sizes: Seq<usize>, k: int) -> Seq<usize>
    decreases k,
{
    if k <= 0 || k > sizes.len() {
        Seq::empty()
    } else if sizes[k - 1] == 0 {
        kept_sizes(sizes, k - 1)
    } else {
        kept_sizes(sizes, k - 1).push(sizes[k - 1])
    }
}

/// All values of `s` equal its first.
pub open spec fn all_same(s: Seq<usize>) -> bool {
    forall|i: int| 0 <= i < s.len() ==> #[trigger] s[i] == s[0]
}

/// Checks a judgement aggregation, given the row lengths of each matrix: the
/// non-empty matrices must be square, there must be one, and all of one size.
/// On success, the common size.
pub fn check_matrices(matrices: &Vec<Vec<usize>>) -> (r: Result<usize, ShapeError>)
    ensures
        r == (if exists|m: int| 0 <= m < matrices@.len() && matrices@[m]@.len() > 0 && !is_square(#[trigger] matrices@[m]@) {
            Err(ShapeError::MatricesNotSquare)
        } else {
            let sizes = kept_sizes(matrices@.map_values(|m: Vec<usize>| m@.len() as usize), matrices@.len() as int);
            if sizes.len() == 0 {
                Err(ShapeError::NoMatrices)
            } else if !all_same(sizes) {
                Err(ShapeError::MatrixSizesDiffer)
            } else {
                Ok(sizes[0])
            }
        }),
{
    let ghost lens = matrices@.map_values(|m: Vec<usize>| m@.len() as usize);
    let mut sizes: Vec<usize> = Vec::new();
    let mut i: usize = 0;
    while i < matrices.len()
        invariant
            i <= matrices@.len(),
            lens == matrices@.map_values(|m: Vec<usize>| m@.len() as usize),
            forall|m: int| 0 <= m < i && matrices@[m]@.len() > 0 ==> is_square(#[trigger] matrices@[m]@),
            sizes@ == kept_sizes(lens, i as int),
        decreases matrices@.len() - i,
    {
        let m = &matrices[i];
        let n = m.len();
        if n > 0 {
            match check_matrix(m) {
                Ok(()) => {},
                Err(_) => {
                    proof {
                        assert(matrices@[i as int]@.len() > 0 && !is_square(matrices@[i as int]@));
                    }
                    return Err(ShapeError::MatricesNotSquare);
                },
            }
            sizes.push(n);
        }
        i += 1;
    }
    proof {
        assert(kept_sizes(lens, matrices@.len() as int) == sizes@);
    }
    if sizes.len() == 0 {
        return Err(ShapeError::NoMatrices);
    }
    let first = sizes[0];
    let mut k: usize = 0;
    while k < sizes.len()
        invariant
            k <= sizes@.len(),
            sizes@.len() > 0,
            first == sizes@[0],
            lens == matrices@.map_values(|m: Vec<usize>| m@.len() as usize),
            sizes@ == kept_sizes(lens, matrices@.len() as int),
            forall|m: int| 0 <= m < matrices@.len() && matrices@[m]@.len() > 0 ==> is_square(#[trigger] matrices@[m]@),
            forall|j: int| 0 <= j < k ==> sizes@[j] == first,
        decreases sizes@.len() - k,
    {
        if sizes[k] != first {
            proof {
                assert(sizes@[k as int] != sizes@[0]);
            }
            return Err(ShapeError::MatrixSizesDiffer);
        }
        k += 1;
    }
    Ok(first)
}

/// Checks a priority aggregation, given the length of each vector: there must be
/// a non-empty one, and the non-empty ones must all have one length. On
/// success, the common length.
pub fn check_vectors(lengths: &Vec<usize>) -> (r: Result<usize, ShapeError>)
    ensures
        r == (if kept_sizes(lengths@, lengths@.len() as int).len() == 0 {
            Err(ShapeError::NoVectors)
        } else if !all_same(kept_sizes(lengths@, lengths@.len() as int)) {
            Err(ShapeError::VectorSizesDiffer)
        } else {
            Ok(kept_sizes(lengths@, lengths@.len() as int)[0])
        }),
{
    let mut sizes: Vec<usize> = Vec::new();
    let mut i: usize = 0;
    while i < lengths.len()
        invariant
            i <= lengths@.len(),
            sizes@ == kept_sizes(lengths@, i as int),
        decreases lengths@.len() - i,
    {
        if lengths[i] > 0 {
            sizes.push(lengths[i]);
        }
        i += 1;
    }
    if sizes.len() == 0 {
        return Err(ShapeError::NoVectors);
    }
    let first = sizes[0];
    let mut k: usize = 0;
    while k < sizes.len()
        invariant
            k <= sizes@.len(),
            sizes@.len() > 0,
            first == sizes@[0],
            sizes@ == kept_sizes(lengths@, lengths@.len() as int),
            forall|j: int| 0 <= j < k ==> sizes@[j] == first,
        decreases sizes@.len() - k,
    {
        if sizes[k] != first {
            proof {
                assert(sizes@[k as int] != sizes@[0]);
            }
            return Err(ShapeError::VectorSizesDiffer);
        }
        k += 1;
    }
    Ok(first)
}

} // verus!
