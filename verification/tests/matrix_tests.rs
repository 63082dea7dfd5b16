use berlewelch::field::Gfe;
use berlewelch::matrix::Matrix;

fn matrix<const M: u32>(m: usize, n: usize, entries: &[i64]) -> Matrix<M> {
    Matrix { m, n, elems: entries.iter().map(|&x| Gfe::from(x)).collect() }
}

fn entries<const M: u32>(matrix: &Matrix<M>) -> Vec<u32> {
    matrix.elems.iter().map(|x| **x).collect()
}

#[test]
fn test_row_reduce_messy() {
    let elems = [
        1, 2, 0, 1, -1, 6, //
        1, 3, 0, 1, 2, 2, //
        0, 3, 0, 2, 5, 3, //
        2, 5, 0, 2, 1, 8, //
        3, 2, 0, 6, -4, 3,
    ]
    .into_iter()
    .map(|x| Gfe::<19>::from(x))
    .collect::<Vec<_>>();
    let mut matrix = Matrix { m: 5, n: 6, elems };
    matrix.row_reduce();
    println!("{matrix:?}");
}

#[test]
fn row_reduce_leaves_a_zero_column_free() {
    let mut a = matrix::<19>(
        5,
        6,
        &[
            1, 2, 0, 1, -1, 6, //
            1, 3, 0, 1, 2, 2, //
            0, 3, 0, 2, 5, 3, //
            2, 5, 0, 2, 1, 8, //
            3, 2, 0, 6, -4, 3,
        ],
    );
    a.row_reduce();
    assert_eq!(
        entries(&a),
        vec![
            1, 0, 0, 0, 0, 12, //
            0, 1, 0, 0, 0, 6, //
            0, 0, 0, 1, 0, 4, //
            0, 0, 0, 0, 1, 3, //
            0, 0, 0, 0, 0, 0,
        ]
    );
    // the zero column has no pivot
    for i in 0..5 {
        assert_eq!(a.elem(i, 2), Gfe::zero());
    }
    // each pivot column holds one 1 and is zero elsewhere
    for (row, col) in [(0, 0), (1, 1), (2, 3), (3, 4)] {
        for i in 0..5 {
            let expected = if i == row { Gfe::one() } else { Gfe::zero() };
            assert_eq!(a.elem(i, col), expected);
        }
    }
}

#[test]
fn row_reduce_swaps_a_pivot_into_place() {
    let mut a = matrix::<19>(2, 3, &[0, 2, 4, 3, 0, 6]);
    a.row_reduce();
    assert_eq!(entries(&a), vec![1, 0, 2, 0, 1, 2]);
}

#[test]
fn row_reduce_of_the_zero_matrix() {
    let mut a = matrix::<19>(2, 2, &[0, 0, 0, 0]);
    a.row_reduce();
    assert_eq!(entries(&a), vec![0, 0, 0, 0]);
}

#[test]
fn row_reduce_of_an_empty_matrix() {
    let mut a = matrix::<19>(0, 3, &[]);
    a.row_reduce();
    assert_eq!(a.elems.len(), 0);
    let mut b = matrix::<19>(3, 0, &[]);
    b.row_reduce();
    assert_eq!(b.elems.len(), 0);
}

#[test]
fn row_reduce_with_more_rows_than_rank() {
    let mut a = matrix::<19>(3, 2, &[1, 2, 2, 4, 3, 6]);
    a.row_reduce();
    assert_eq!(entries(&a), vec![1, 2, 0, 0, 0, 0]);
}

#[test]
fn mul_row_scales_one_row() {
    let mut a = matrix::<19>(2, 3, &[1, 2, 3, 4, 5, 6]);
    a.mul_row(1, Gfe::new(5));
    assert_eq!(entries(&a), vec![1, 2, 3, 1, 6, 11]);
}

#[test]
fn add_c_row_to_adds_a_multiple() {
    let mut a = matrix::<19>(2, 3, &[1, 2, 3, 4, 5, 6]);
    a.add_c_row_to(0, 1, Gfe::new(10));
    assert_eq!(entries(&a), vec![1, 2, 3, 14, 6, 17]);
}

#[test]
fn add_c_row_to_itself() {
    let mut a = matrix::<19>(1, 2, &[3, 4]);
    a.add_c_row_to(0, 0, Gfe::new(2));
    assert_eq!(entries(&a), vec![9, 12]);
}

#[test]
fn swap_rows_exchanges_two_rows() {
    let mut a = matrix::<19>(3, 2, &[1, 2, 3, 4, 5, 6]);
    a.swap_rows(0, 2);
    assert_eq!(entries(&a), vec![5, 6, 3, 4, 1, 2]);
    a.swap_rows(1, 1);
    assert_eq!(entries(&a), vec![5, 6, 3, 4, 1, 2]);
}

#[test]
fn elem_reads_row_major() {
    let a = matrix::<19>(2, 3, &[1, 2, 3, 4, 5, 6]);
    assert_eq!(a.elem(0, 2), Gfe::new(3));
    assert_eq!(a.elem(1, 0), Gfe::new(4));
}

#[test]
fn elem_mut_writes_one_entry() {
    let mut a = matrix::<19>(2, 3, &[1, 2, 3, 4, 5, 6]);
    *a.elem_mut(1, 1) = Gfe::new(9);
    assert_eq!(entries(&a), vec![1, 2, 3, 4, 9, 6]);
}

#[test]
fn row_reduce_of_several_matrices() {
    let cases: [(usize, usize, &[i64], &[u32]); 4] = [
        (
            3,
            4,
            &[4, 1, 17, 18, 16, 2, 2, 17, 5, 13, 3, 23],
            &[1, 0, 25, 23, 0, 1, 4, 13, 0, 0, 0, 0],
        ),
        (
            4,
            4,
            &[12, 7, 27, 13, 3, 17, 0, 18, 22, 19, 23, 13, 21, 24, 18, 0],
            &[1, 0, 0, 9, 0, 1, 0, 8, 0, 0, 1, 3, 0, 0, 0, 0],
        ),
        (
            4,
            6,
            &[7, 0, 7, 9, 28, 14, 2, 13, 10, 15, 21, 17, 2, 7, 13, 15, 15, 11, 0, 21, 23, 0, 21, 0],
            &[1, 0, 0, 22, 4, 26, 0, 1, 0, 0, 1, 18, 0, 0, 1, 0, 0, 5, 0, 0, 0, 0, 0, 0],
        ),
        (
            5,
            3,
            &[12, 0, 14, 19, 1, 9, 15, 5, 0, 17, 4, 0, 0, 13, 0],
            &[1, 0, 0, 0, 1, 0, 0, 0, 1, 0, 0, 0, 0, 0, 0],
        ),
    ];
    for (m, n, before, after) in cases {
        let mut a = matrix::<29>(m, n, before);
        a.row_reduce();
        assert_eq!(entries(&a), after.to_vec());
        // reducing again changes nothing
        a.row_reduce();
        assert_eq!(entries(&a), after.to_vec());
    }
}
