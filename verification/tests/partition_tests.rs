use rusttransformer::partition::{rows_per_worker, worker_range};

#[test]
fn rows_per_worker_rounds_up() {
    assert_eq!(rows_per_worker(10, 3), 4);
    assert_eq!(rows_per_worker(9, 3), 3);
    assert_eq!(rows_per_worker(0, 5), 0);
    assert_eq!(rows_per_worker(1, 5), 1);
    assert_eq!(rows_per_worker(7, 1), 7);
}

#[test]
fn worker_ranges_of_ten_rows_among_three() {
    assert_eq!(worker_range(0, 10, 3), (0, 4));
    assert_eq!(worker_range(1, 10, 3), (4, 8));
    assert_eq!(worker_range(2, 10, 3), (8, 10));
}

#[test]
fn workers_without_rows_get_empty_ranges() {
    assert_eq!(worker_range(0, 2, 4), (0, 1));
    assert_eq!(worker_range(1, 2, 4), (1, 2));
    assert_eq!(worker_range(2, 2, 4), (2, 2));
    assert_eq!(worker_range(3, 2, 4), (2, 2));
}

#[test]
fn worker_ranges_cover_every_row_once() {
    for rows in 0..40usize {
        for workers in 1..12usize {
            let mut owners = vec![0usize; rows];
            let mut next = 0;
            for w in 0..workers {
                let (start, end) = worker_range(w, rows, workers);
                assert_eq!(start, next);
                assert!(start <= end && end <= rows);
                for r in start..end {
                    owners[r] += 1;
                }
                next = end;
            }
            assert_eq!(next, rows);
            assert!(owners.iter().all(|&n| n == 1));
        }
    }
}

#[test]
fn worker_range_near_the_largest_numbers() {
    let rows = usize::MAX;
    let workers = usize::MAX;
    assert_eq!(worker_range(0, rows, workers), (0, 1));
    assert_eq!(worker_range(workers - 1, rows, workers), (rows - 1, rows));
    assert_eq!(worker_range(1, usize::MAX, 2), (usize::MAX / 2 + 1, usize::MAX));
}
