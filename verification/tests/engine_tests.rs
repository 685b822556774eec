use matrix_engine::engine::{build_tasks, collect_results, parallel_multiply, perform_task, Task,
    TaskResult};
use matrix_engine::error::MatrixError;
use matrix_engine::matrix::Matrix;

#[test]
fn test_matrix_multi_threads_mul() {
    let m1 = Matrix::new(vec![1, 2, 3, 4, 5, 6, 7, 8, 9], 3, 3);
    let m2 = Matrix::new(vec![1, 2, 3, 4, 5, 6, 7, 8, 9], 3, 3);
    let m3 = parallel_multiply(&m1, &m2, 4).unwrap();
    assert_eq!(m3.data, vec![30, 36, 42, 66, 81, 96, 102, 126, 150]);
}

#[test]
fn test_parallel_matches_sequential() {
    let a = Matrix::new(vec![2, -3, 5, 7, 11, -13, 17, 19, 23, -29, 31, 37], 4, 3);
    let b = Matrix::new(vec![1, 0, -2, 4, 3, 6, -5, 8, 9, 1, 0, 2], 3, 4);
    let s = a.multiply(&b).unwrap();
    let p = parallel_multiply(&a, &b, 4).unwrap();
    assert_eq!(s.data, p.data);
    assert_eq!(s.rows, p.rows);
    assert_eq!(s.cols, p.cols);
}

#[test]
fn test_parallel_dimension_mismatch() {
    let a = Matrix::new(vec![1, 2, 3, 4, 5, 6], 2, 3);
    let b = Matrix::new(vec![1, 2, 3, 4, 5, 6], 2, 3);
    match parallel_multiply(&a, &b, 4) {
        Err(e) => assert_eq!(e, MatrixError::DimensionMismatch),
        Ok(_) => panic!("incompatible shapes must not multiply"),
    }
}

#[test]
fn test_parallel_one_by_one() {
    let a = Matrix::new(vec![-9], 1, 1);
    let b = Matrix::new(vec![8], 1, 1);
    let c = parallel_multiply(&a, &b, 4).unwrap();
    assert_eq!(c.data, vec![-72]);
}

#[test]
fn test_worker_count_does_not_change_result() {
    let m1 = Matrix::new(vec![1, 2, 3, 4, 5, 6, 7, 8, 9], 3, 3);
    let m2 = Matrix::new(vec![9, 8, 7, 6, 5, 4, 3, 2, 1], 3, 3);
    let r1 = parallel_multiply(&m1, &m2, 1).unwrap();
    let r4 = parallel_multiply(&m1, &m2, 4).unwrap();
    let r16 = parallel_multiply(&m1, &m2, 16).unwrap();
    assert_eq!(r1.data, r4.data);
    assert_eq!(r4.data, r16.data);
    let seq = m1.multiply(&m2).unwrap();
    assert_eq!(r4.data, seq.data);
}

#[test]
fn test_build_tasks_layout() {
    let a = Matrix::new(vec![1, 2, 3, 4, 5, 6, 7, 8, 9], 3, 3);
    let b = Matrix::new(vec![9, 8, 7, 6, 5, 4, 3, 2, 1], 3, 3);
    let tasks = build_tasks(&a, &b, 4).unwrap();
    assert_eq!(tasks.len(), 9);
    for (k, t) in tasks.iter().enumerate() {
        let i = k / 3;
        let j = k % 3;
        assert_eq!(t.flat_index, k);
        assert_eq!(t.worker, (i + j) % 4);
        assert_eq!(t.row, a.get_row(i));
        assert_eq!(t.col, b.get_col(j));
    }
}

#[test]
fn test_perform_task_carries_index() {
    let t = Task { row: vec![1, 2], col: vec![3, 4], flat_index: 5, worker: 0 };
    let res = perform_task(&t).unwrap();
    assert_eq!(res.value, 11);
    assert_eq!(res.flat_index, 5);
}

#[test]
fn test_perform_task_length_mismatch() {
    let t = Task { row: vec![1, 2, 3], col: vec![3, 4], flat_index: 0, worker: 0 };
    assert_eq!(perform_task(&t), Err(MatrixError::VectorLengthMismatch));
}

#[test]
fn test_collect_places_by_flat_index() {
    // Replies delivered out of submission order still land at their own
    // flat index.
    let replies = vec![
        Some(TaskResult { value: 40, flat_index: 3 }),
        Some(TaskResult { value: 20, flat_index: 1 }),
        Some(TaskResult { value: 10, flat_index: 0 }),
        Some(TaskResult { value: 30, flat_index: 2 }),
    ];
    let m = collect_results(&replies, 2, 2).unwrap();
    assert_eq!(m.data, vec![10, 20, 30, 40]);
    assert_eq!(m.rows, 2);
    assert_eq!(m.cols, 2);
}

#[test]
fn test_collect_order_independent() {
    // The same set of answers in two completion orders assembles to the
    // same matrix.
    let forward = vec![
        Some(TaskResult { value: 1, flat_index: 0 }),
        Some(TaskResult { value: 2, flat_index: 1 }),
        Some(TaskResult { value: 3, flat_index: 2 }),
        Some(TaskResult { value: 4, flat_index: 3 }),
    ];
    let backward = vec![
        Some(TaskResult { value: 4, flat_index: 3 }),
        Some(TaskResult { value: 3, flat_index: 2 }),
        Some(TaskResult { value: 2, flat_index: 1 }),
        Some(TaskResult { value: 1, flat_index: 0 }),
    ];
    let mf = collect_results(&forward, 2, 2).unwrap();
    let mb = collect_results(&backward, 2, 2).unwrap();
    assert_eq!(mf.data, mb.data);
    assert_eq!(mf.data, vec![1, 2, 3, 4]);
}

#[test]
fn test_collect_lost_reply_is_reported() {
    // A dropped reply handle surfaces as an error, never as a hang or a
    // partial matrix.
    let replies = vec![
        Some(TaskResult { value: 1, flat_index: 0 }),
        None,
        Some(TaskResult { value: 3, flat_index: 2 }),
        Some(TaskResult { value: 4, flat_index: 3 }),
    ];
    match collect_results(&replies, 2, 2) {
        Err(e) => assert_eq!(e, MatrixError::ChannelDisconnected),
        Ok(_) => panic!("a lost reply must fail the whole operation"),
    }
}
