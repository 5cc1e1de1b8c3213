use matrix::compressed::{Compressed, Format};
use matrix::dense::Dense;
use matrix::diagonal::DiagonalMatrix;

fn new(
    rows: usize,
    columns: usize,
    nonzeros: usize,
    format: Format,
    values: Vec<i64>,
    indices: Vec<usize>,
    offsets: Vec<usize>,
) -> Compressed {
    Compressed { rows, columns, nonzeros, format, values, indices, offsets }
}

#[test]
fn multiply_self() {
    let mut matrix = new(3, 2, 3, Format::Column, vec![1, 2, 3], vec![1, 0, 2], vec![0, 1, 3]);
    let right = DiagonalMatrix { rows: 2, columns: 4, data: vec![4, 5] };
    matrix.multiply_self(&right).unwrap();
    assert_eq!(
        matrix,
        new(3, 4, 3, Format::Column, vec![4, 10, 15], vec![1, 0, 2], vec![0, 1, 3, 3, 3])
    );
}

#[test]
fn multiply_into_left() {
    let matrix = Compressed::from_dense(&Dense::from_vec(
        vec![
            1, 2, 3, 4,
            5, 6, 6, 5,
            4, 3, 2, 1,
        ],
        4,
        3,
    ));
    let right = vec![
        1, 2, 3,
        4, 5, 6,
    ];
    let mut result = vec![1i64; 8];
    matrix.multiply_into(&right, &mut result).unwrap();
    assert_eq!(
        result,
        vec![
            24, 24, 22, 18,
            54, 57, 55, 48,
        ]
    );
}

#[test]
fn multiply_into_right() {
    let matrix = Dense::from_vec(
        vec![
            1, 2, 3, 4,
            5, 6, 6, 5,
            4, 3, 2, 1,
        ],
        4,
        3,
    );
    let right = Compressed::from_dense(&Dense::from_vec(
        vec![
            1, 2, 3,
            4, 5, 6,
        ],
        3,
        2,
    ));
    let mut result = vec![1i64; 8];
    matrix.multiply_into(&right, &mut result).unwrap();
    assert_eq!(
        result,
        vec![
            24, 24, 22, 18,
            54, 57, 55, 48,
        ]
    );
}

#[test]
fn operation_transpose() {
    let matrix = new(5, 7, 5, Format::Column, vec![1, 2, 3, 4, 5],
                     vec![1, 0, 3, 1, 4], vec![0, 0, 0, 1, 2, 2, 3, 5]);
    let matrix = matrix.transposed();
    assert_eq!(
        matrix,
        new(7, 5, 5, Format::Column, vec![2, 1, 4, 3, 5],
            vec![3, 2, 6, 5, 6], vec![0, 1, 3, 3, 4, 5])
    );
}
