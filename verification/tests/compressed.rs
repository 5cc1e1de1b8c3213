use matrix::compressed::{Compressed, Format};
use matrix::dense::Dense;

fn new(
    rows: usize,
    columns: usize,
    nonzeros: usize,
    format: Format,
    values: Vec<i64>,
    indices: Vec<usize>,
    offsets: Vec<usize>,
) -> Compressed {
    Compressed { rows, columns, nonzeros, format, values, indices, offsets }
}

#[test]
fn get() {
    let dense = Dense::from_vec(
        vec![
            0, 1, 0, 0, 0,
            0, 0, 0, 2, 3,
            0, 0, 0, 0, 4,
        ],
        5,
        3,
    );

    let matrix = Compressed::from_dense(&dense);
    assert_eq!(matrix.nonzeros, 4);

    for i in 0..5 {
        for j in 0..3 {
            assert_eq!(dense.get(i, j), matrix.get(i, j).unwrap());
        }
    }
}

#[test]
fn set() {
    let mut dense = Dense::from_vec(
        vec![
            0, 1, 0, 0, 0,
            0, 0, 0, 2, 3,
            0, 0, 0, 0, 4,
        ],
        5,
        3,
    );

    let mut matrix = Compressed::from_dense(&dense);
    assert_eq!(matrix.nonzeros, 4);

    dense.set(0, 0, 42);
    dense.set(3, 1, 69);

    matrix.set(0, 0, 42).unwrap();
    matrix.set(3, 1, 69).unwrap();
    matrix.set(4, 0, 0).unwrap();

    assert_eq!(matrix.nonzeros, 4 + 1 + (1 - 1) + 1);
    assert_eq!(dense, matrix.to_dense());

    for i in 0..5 {
        for j in 0..3 {
            dense.set(i, j, (j * 5 + i) as i64);
            matrix.set(i, j, (j * 5 + i) as i64).unwrap();
        }
    }

    assert_eq!(matrix.nonzeros, 5 * 3);
    assert_eq!(dense, matrix.to_dense());
}

#[test]
fn nonzeros() {
    let matrix = new(5, 7, 5, Format::Column, vec![1, 0, 3, 0, 5],
                     vec![1, 0, 3, 1, 4], vec![0, 0, 0, 1, 2, 2, 3, 5]);

    assert_eq!(matrix.nonzeros, 5);
    assert_eq!(matrix.nonzeros(), 3);
}

#[test]
fn compressed_transpose() {
    let mut matrix = new(5, 7, 5, Format::Column, vec![1, 2, 3, 4, 5],
                         vec![1, 0, 3, 1, 4], vec![0, 0, 0, 1, 2, 2, 3, 5]);

    matrix.transpose();

    assert_eq!(matrix, new(7, 5, 5, Format::Column, vec![2, 1, 4, 3, 5],
                           vec![3, 2, 6, 5, 6], vec![0, 1, 3, 3, 4, 5]));
}

#[test]
fn iter() {
    let matrix = new(5, 7, 5, Format::Column, vec![1, 2, 3, 4, 5],
                     vec![1, 0, 3, 1, 4], vec![0, 0, 0, 1, 2, 2, 3, 5]);

    let mut rows_seen = Vec::new();
    let mut columns_seen = Vec::new();
    let mut values_seen = Vec::new();
    let mut it = matrix.iter();
    while let Some((i, j, value)) = it.next() {
        rows_seen.push(i);
        columns_seen.push(j);
        values_seen.push(value);
    }

    assert_eq!(&rows_seen, &vec![1, 0, 3, 1, 4]);
    assert_eq!(&columns_seen, &vec![2, 3, 5, 6, 6]);
    assert_eq!(&values_seen, &vec![1, 2, 3, 4, 5]);
}

#[test]
fn resize_fewer_columns() {
    let mut matrix = new(5, 7, 5, Format::Column, vec![1, 2, 3, 4, 5],
                         vec![1, 0, 3, 1, 4], vec![0, 0, 0, 1, 2, 2, 3, 5]);

    matrix.resize(5, 5);
    assert_eq!(matrix, new(5, 5, 2, Format::Column, vec![1, 2],
                           vec![1, 0], vec![0, 0, 0, 1, 2, 2]));

    matrix.resize(5, 3);
    assert_eq!(matrix, new(5, 3, 1, Format::Column, vec![1],
                           vec![1], vec![0, 0, 0, 1]));

    matrix.resize(5, 1);
    assert_eq!(matrix, new(5, 1, 0, Format::Column, vec![],
                           vec![], vec![0, 0]));
}

#[test]
fn resize_fewer_rows() {
    let mut matrix = new(5, 7, 5, Format::Column, vec![1, 2, 3, 4, 5],
                         vec![1, 0, 3, 1, 4], vec![0, 0, 0, 1, 2, 2, 3, 5]);

    matrix.resize(3, 7);
    assert_eq!(matrix, new(3, 7, 3, Format::Column, vec![1, 2, 4],
                           vec![1, 0, 1], vec![0, 0, 0, 1, 2, 2, 2, 3]));

    matrix.resize(1, 7);
    assert_eq!(matrix, new(1, 7, 1, Format::Column, vec![2],
                           vec![0], vec![0, 0, 0, 0, 1, 1, 1, 1]));
}

#[test]
fn resize_more_columns() {
    let mut matrix = new(5, 7, 4, Format::Column, vec![1, 2, 3, 4],
                         vec![1, 1, 3, 4], vec![0, 0, 0, 1, 2, 2, 3, 4]);

    matrix.resize(5, 9);
    assert_eq!(matrix, new(5, 9, 4, Format::Column, vec![1, 2, 3, 4],
                           vec![1, 1, 3, 4], vec![0, 0, 0, 1, 2, 2, 3, 4, 4, 4]));

    matrix.resize(5, 11);
    assert_eq!(matrix, new(5, 11, 4, Format::Column, vec![1, 2, 3, 4],
                           vec![1, 1, 3, 4], vec![0, 0, 0, 1, 2, 2, 3, 4, 4, 4, 4, 4]));
}

#[test]
fn resize_more_rows() {
    let mut matrix = new(5, 7, 4, Format::Column, vec![1, 2, 3, 4],
                         vec![1, 1, 3, 4], vec![0, 0, 0, 1, 2, 2, 3, 4]);

    matrix.resize(7, 7);
    assert_eq!(matrix, new(7, 7, 4, Format::Column, vec![1, 2, 3, 4],
                           vec![1, 1, 3, 4], vec![0, 0, 0, 1, 2, 2, 3, 4]));

    matrix.resize(9, 7);
    assert_eq!(matrix, new(9, 7, 4, Format::Column, vec![1, 2, 3, 4],
                           vec![1, 1, 3, 4], vec![0, 0, 0, 1, 2, 2, 3, 4]));
}

#[test]
fn from_dense() {
    let dense = Dense::from_vec(
        vec![
            0, 1, 0, 0, 0,
            0, 0, 0, 2, 3,
            0, 0, 0, 0, 4,
        ],
        5,
        3,
    );

    let matrix = Compressed::from_dense(&dense);

    assert_eq!(matrix, new(5, 3, 4, Format::Column, vec![1, 2, 3, 4],
                           vec![1, 3, 4, 4], vec![0, 1, 3, 4]));
}

#[test]
fn into_dense() {
    let matrix = new(5, 3, 3, Format::Column, vec![1, 2, 3],
                     vec![0, 1, 2], vec![0, 1, 2, 3]);

    let dense = matrix.to_dense();

    assert_eq!(
        &dense.values,
        &vec![
            1, 0, 0, 0, 0,
            0, 2, 0, 0, 0,
            0, 0, 3, 0, 0,
        ]
    );
}
