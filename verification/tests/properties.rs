use matrix::compressed::{Compressed, Format};
use matrix::dense::Dense;
use matrix::diagonal::DiagonalMatrix;
use matrix::Error;

fn check_structure(matrix: &Compressed) {
    assert_eq!(matrix.values.len(), matrix.nonzeros);
    assert_eq!(matrix.indices.len(), matrix.nonzeros);
    let majors = match matrix.format {
        Format::Column => matrix.columns,
        Format::Row => matrix.rows,
    };
    assert_eq!(matrix.offsets.len(), majors + 1);
    assert_eq!(matrix.offsets[0], 0);
    assert_eq!(matrix.offsets[majors], matrix.nonzeros);
    for m in 0..majors {
        assert!(matrix.offsets[m] <= matrix.offsets[m + 1]);
        for k in matrix.offsets[m]..matrix.offsets[m + 1] {
            if k + 1 < matrix.offsets[m + 1] {
                assert!(matrix.indices[k] < matrix.indices[k + 1]);
            }
        }
    }
}

#[test]
fn get_after_set() {
    for format in [Format::Column, Format::Row] {
        let mut matrix = Compressed::new(4, 6, format);
        for (i, j, v) in [(0, 0, 7), (3, 5, -2), (2, 2, 0), (3, 5, 9)] {
            matrix.set(i, j, v).unwrap();
            assert_eq!(matrix.get(i, j).unwrap(), v);
            check_structure(&matrix);
        }
    }
}

#[test]
fn structure_after_mutators() {
    let mut matrix = Compressed::new(5, 5, Format::Row);
    for t in 0..5 {
        matrix.set(t, 4 - t, (t as i64) - 2).unwrap();
        check_structure(&matrix);
    }
    matrix.resize(3, 9);
    check_structure(&matrix);
    matrix.retain(|i, _, _| i % 2 == 0);
    check_structure(&matrix);
    matrix.transpose();
    check_structure(&matrix);
}

#[test]
fn slot_count_versus_true_count() {
    let mut matrix = Compressed::new(3, 3, Format::Column);
    matrix.set(0, 0, 5).unwrap();
    matrix.set(1, 1, 0).unwrap();
    matrix.set(2, 2, -4).unwrap();
    assert_eq!(matrix.nonzeros, 3);
    assert_eq!(matrix.nonzeros(), 2);
    assert!(matrix.nonzeros() <= matrix.nonzeros);
}

#[test]
fn dense_round_trip() {
    let dense = Dense::from_vec(
        vec![
            0, 11, 0, -3, 0, 0,
            7, 0, 0, 0, 0, 2,
        ],
        6,
        2,
    );
    let compressed = Compressed::from_dense(&dense);
    let back = compressed.to_dense();
    assert_eq!(back, dense);
}

#[test]
fn retain_all_and_none() {
    let template = Compressed {
        rows: 5,
        columns: 7,
        nonzeros: 5,
        format: Format::Column,
        values: vec![1, 2, 0, 4, 5],
        indices: vec![1, 0, 3, 1, 4],
        offsets: vec![0, 0, 0, 1, 2, 2, 3, 5],
    };

    let mut kept = template.clone();
    kept.retain(|_, _, _| true);
    assert_eq!(kept, template);

    let mut dropped = template.clone();
    dropped.retain(|_, _, _| false);
    assert_eq!(dropped.rows, 5);
    assert_eq!(dropped.columns, 7);
    assert_eq!(dropped.nonzeros, 0);
    assert_eq!(dropped.values, vec![]);
    assert_eq!(dropped.indices, vec![]);
    assert_eq!(dropped.offsets, vec![0; 8]);
}

#[test]
fn resize_keeps_inner_entries() {
    let mut matrix = Compressed::new(6, 6, Format::Column);
    matrix.set(0, 0, 1).unwrap();
    matrix.set(5, 5, 2).unwrap();
    matrix.set(2, 3, 3).unwrap();

    matrix.resize(4, 4);
    assert_eq!(matrix.get(0, 0).unwrap(), 1);
    assert_eq!(matrix.get(2, 3).unwrap(), 3);
    assert_eq!(matrix.nonzeros, 2);

    matrix.resize(8, 8);
    assert_eq!(matrix.get(0, 0).unwrap(), 1);
    assert_eq!(matrix.get(2, 3).unwrap(), 3);
    assert_eq!(matrix.get(7, 7).unwrap(), 0);
    assert_eq!(matrix.nonzeros, 2);
}

#[test]
fn transpose_involution() {
    let original = Compressed {
        rows: 5,
        columns: 7,
        nonzeros: 5,
        format: Format::Column,
        values: vec![1, 2, 3, 4, 5],
        indices: vec![1, 0, 3, 1, 4],
        offsets: vec![0, 0, 0, 1, 2, 2, 3, 5],
    };
    let twice = original.transposed().transposed();
    assert_eq!(twice, original);
}

#[test]
fn sparse_multiply_matches_dense_multiply() {
    let dense_left = Dense::from_vec(
        vec![
            0, 1, 0, 0, 0,
            0, 0, 0, 2, 3,
            0, 0, 0, 0, 4,
        ],
        5,
        3,
    );
    let sparse = Compressed::from_dense(&dense_left);
    let right = vec![
        3, -1, 2,
        0, 5, 7,
    ];
    let mut result = vec![0i64; 10];
    sparse.multiply_into(&right, &mut result).unwrap();

    let mut expected = vec![0i64; 10];
    for j in 0..2 {
        for i in 0..5 {
            let mut sum: i64 = 0;
            for l in 0..3 {
                sum += dense_left.get(i, l) * right[j * 3 + l];
            }
            expected[j * 5 + i] = sum;
        }
    }
    assert_eq!(result, expected);
}

#[test]
fn band_expansion_corners() {
    let band = matrix::band::BandMatrix {
        rows: 7,
        columns: 4,
        superdiagonals: 2,
        subdiagonals: 2,
        data: vec![
            0, 0, 1, 4, 8,
            0, 2, 5, 9, 12,
            3, 6, 10, 13, 15,
            7, 11, 14, 16, 17,
        ],
    };
    let dense = band.to_dense();
    assert_eq!(dense.get(0, 0), 1);
    assert_eq!(dense.get(0, 2), 3);
    assert_eq!(dense.get(2, 1), 9);
    assert_eq!(dense.get(5, 3), 17);
    assert_eq!(dense.get(6, 3), 0);
    assert_eq!(dense.get(6, 0), 0);
}

#[test]
fn diagonal_to_dense() {
    let diagonal = DiagonalMatrix { rows: 2, columns: 4, data: vec![4, 5] };
    let dense = diagonal.to_dense();
    assert_eq!(dense.rows, 2);
    assert_eq!(dense.columns, 4);
    assert_eq!(dense.values, vec![4, 0, 0, 5, 0, 0, 0, 0]);
}

#[test]
fn out_of_bounds_is_rejected() {
    let mut matrix = Compressed::new(3, 4, Format::Column);
    assert_eq!(matrix.get(3, 0), Err(Error::OutOfBounds));
    assert_eq!(matrix.get(0, 4), Err(Error::OutOfBounds));
    assert_eq!(matrix.set(5, 1, 9), Err(Error::OutOfBounds));
    assert_eq!(matrix.nonzeros, 0);
}

#[test]
fn dimension_mismatch_is_rejected() {
    let matrix = Compressed::new(3, 4, Format::Column);
    let mut small = vec![0i64; 5];
    assert_eq!(matrix.multiply_into(&vec![1, 2, 3], &mut small), Err(Error::DimensionMismatch));
    assert_eq!(small, vec![0i64; 5]);

    let dense = Dense::from_vec(vec![1, 2, 3, 4, 5, 6], 2, 3);
    let wrong = Compressed::new(4, 2, Format::Column);
    let mut out = vec![0i64; 4];
    assert_eq!(dense.multiply_into(&wrong, &mut out), Err(Error::DimensionMismatch));

    let mut left = Compressed::new(3, 3, Format::Column);
    let diagonal = DiagonalMatrix { rows: 2, columns: 2, data: vec![1, 2] };
    assert_eq!(left.multiply_self(&diagonal), Err(Error::DimensionMismatch));
}

#[test]
fn row_format_round_trip() {
    let mut matrix = Compressed::new(4, 4, Format::Row);
    matrix.set(0, 3, 8).unwrap();
    matrix.set(2, 1, -1).unwrap();
    matrix.set(0, 1, 4).unwrap();
    let dense = matrix.to_dense();
    for i in 0..4 {
        for j in 0..4 {
            assert_eq!(dense.get(i, j), matrix.get(i, j).unwrap());
        }
    }
    assert_eq!(matrix.format.flip(), Format::Column);
}
