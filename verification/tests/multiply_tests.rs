use tiled_matrix::matrix::Matrix;
use tiled_matrix::multiply::ELEM_BOUND;

fn from_values(rows: i32, columns: i32, values: Vec<i64>) -> Matrix {
    let mut m = Matrix::new(rows, columns).unwrap();
    m.set_all(&values).unwrap();
    m
}

fn identity(n: i32) -> Matrix {
    let mut m = Matrix::new(n, n).unwrap();
    for i in 0..n {
        m.set_val(i, i, 1).unwrap();
    }
    m
}

fn entries(m: &Matrix) -> Vec<Vec<i64>> {
    let mut out = Vec::new();
    for r in 0..m.rows {
        let mut row = Vec::new();
        for c in 0..m.columns {
            row.push(m.get_val(r, c).unwrap());
        }
        out.push(row);
    }
    out
}

#[test]
fn multiply_small_exact() {
    let a = from_values(2, 3, vec![1, 2, 3, 4, 5, 6]);
    let b = from_values(3, 2, vec![7, 8, 9, 10, 11, 12]);
    let p = a.dot(&b);
    assert_eq!(entries(&p), vec![vec![58, 64], vec![139, 154]]);
}

#[test]
fn multiply_shape() {
    let a = from_values(2, 3, vec![1, 2, 3, 4, 5, 6]);
    let b = from_values(3, 2, vec![7, 8, 9, 10, 11, 12]);
    let p = a.dot(&b);
    assert_eq!(p.rows, 2);
    assert_eq!(p.columns, 2);
    let q = b.dot(&a);
    assert_eq!(q.rows, 3);
    assert_eq!(q.columns, 3);
}

#[test]
fn multiply_identity_keeps_entries() {
    let m = from_values(2, 3, vec![5, -3, 0, 12, 7, -9]);
    let id = identity(3);
    let p = m.dot(&id);
    assert_eq!(entries(&p), entries(&m));
    let idl = identity(2);
    let q = idl.dot(&m);
    assert_eq!(entries(&q), entries(&m));
}

#[test]
fn tiling_and_parallelism_invariance() {
    let mut av = Vec::new();
    for i in 0..35 {
        av.push((i * 13 % 29) - 14);
    }
    let mut bv = Vec::new();
    for i in 0..28 {
        bv.push((i * 17 % 31) - 15);
    }
    let a = from_values(5, 7, av);
    let b = from_values(7, 4, bv);
    let small_serial = a.dot_configured(&b, 16, false);
    let large_parallel = a.dot_configured(&b, 256, true);
    let default = a.dot(&b);
    assert_eq!(entries(&small_serial), entries(&large_parallel));
    assert_eq!(entries(&small_serial), entries(&default));
}

#[test]
fn multiply_wide_parallel_bands() {
    // more rows than one tile edge, so the parallel path uses several bands
    let n: i32 = 40;
    let mut av = Vec::new();
    for i in 0..(n as i64) * (n as i64) {
        av.push(i % 7 - 3);
    }
    let a = from_values(n, n, av.clone());
    let b = from_values(n, n, av);
    let tiled = a.dot_configured(&b, 8, true);
    let plain = a.dot_configured(&b, 1048576, false);
    assert_eq!(entries(&tiled), entries(&plain));
}

#[test]
fn multiply_zero_dimension() {
    let a = Matrix::new(0, 3).unwrap();
    let b = Matrix::new(3, 2).unwrap();
    let p = a.dot(&b);
    assert_eq!(p.rows, 0);
    assert_eq!(p.columns, 2);

    let c = Matrix::new(2, 0).unwrap();
    let d = Matrix::new(0, 3).unwrap();
    let q = c.dot(&d);
    assert_eq!(q.rows, 2);
    assert_eq!(q.columns, 3);
    assert_eq!(entries(&q), vec![vec![0, 0, 0], vec![0, 0, 0]]);
}

#[test]
fn multiply_boundary_magnitude() {
    let a = from_values(1, 1, vec![ELEM_BOUND]);
    let b = from_values(1, 1, vec![-ELEM_BOUND]);
    let p = a.dot(&b);
    assert_eq!(p.get_val(0, 0), Some(-(ELEM_BOUND * ELEM_BOUND)));
}

#[test]
fn multiply_by_zero_matrix() {
    let a = from_values(2, 2, vec![3, -4, 5, 6]);
    let z = Matrix::new(2, 2).unwrap();
    let p = a.dot(&z);
    assert_eq!(entries(&p), vec![vec![0, 0], vec![0, 0]]);
}
