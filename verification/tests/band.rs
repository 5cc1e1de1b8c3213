use matrix::band::BandMatrix;
use matrix::dense::Dense;

#[test]
fn into_tall_dense() {
    let band = BandMatrix {
        rows: 7,
        columns: 4,
        superdiagonals: 2,
        subdiagonals: 2,
        data: vec![
            0, 0, 1, 4, 8,
            0, 2, 5, 9, 12,
            3, 6, 10, 13, 15,
            7, 11, 14, 16, 17,
        ],
    };

    let dense: Dense = band.to_dense();

    assert_eq!(
        dense.values,
        vec![
            1, 4, 8, 0, 0, 0, 0,
            2, 5, 9, 12, 0, 0, 0,
            3, 6, 10, 13, 15, 0, 0,
            0, 7, 11, 14, 16, 17, 0,
        ]
    );
}

#[test]
fn into_wide_dense() {
    let band = BandMatrix {
        rows: 4,
        columns: 7,
        superdiagonals: 2,
        subdiagonals: 2,
        data: vec![
            0, 0, 1, 4, 8,
            0, 2, 5, 9, 13,
            3, 6, 10, 14, 0,
            7, 11, 15, 0, 0,
            12, 16, 0, 0, 0,
            17, 0, 0, 0, 0,
            0, 0, 0, 0, 0,
        ],
    };

    let dense: Dense = band.to_dense();

    assert_eq!(
        dense.values,
        vec![
            1, 4, 8, 0,
            2, 5, 9, 13,
            3, 6, 10, 14,
            0, 7, 11, 15,
            0, 0, 12, 16,
            0, 0, 0, 17,
            0, 0, 0, 0,
        ]
    );
}
