use dns_enum::partition::{chunk_size, partitions, Partition};
use dns_enum::dns::ProgressCounter;

#[test]
fn chunk_size_examples() {
    assert_eq!(chunk_size(4, 3), 2);
    assert_eq!(chunk_size(10, 10), 1);
    assert_eq!(chunk_size(0, 5), 0);
    assert_eq!(chunk_size(7, 2), 4);
    assert_eq!(chunk_size(9, 3), 3);
    assert_eq!(chunk_size(5, 1), 5);
}

#[test]
fn three_workers_four_words() {
    // chunk size ceil(4/3) = 2: [0,2) and [2,4); the third chunk would
    // start at 4, which is the total, so no third worker is given work.
    let parts = partitions(4, 3);
    assert_eq!(parts.len(), 2);
    assert_eq!(parts[0], Partition { start: 0, end: 2 });
    assert_eq!(parts[1], Partition { start: 2, end: 4 });
}

#[test]
fn single_worker_covers_everything() {
    let parts = partitions(5, 1);
    assert_eq!(parts.len(), 1);
    assert_eq!(parts[0], Partition { start: 0, end: 5 });
}

#[test]
fn more_workers_than_words() {
    let parts = partitions(3, 10);
    assert_eq!(parts.len(), 3);
    for (i, p) in parts.iter().enumerate() {
        assert_eq!(p.start, i);
        assert_eq!(p.end, i + 1);
    }
}

#[test]
fn no_words_no_partitions() {
    assert_eq!(partitions(0, 4).len(), 0);
}

#[test]
fn partitions_cover_every_index_exactly_once() {
    for n in 0..40usize {
        for t in 1..12usize {
            let parts = partitions(n, t);
            let mut covered = vec![0usize; n];
            for p in &parts {
                assert!(p.start < p.end && p.end <= n);
                for k in p.start..p.end {
                    covered[k] += 1;
                }
            }
            for k in 0..n {
                assert_eq!(covered[k], 1);
            }
        }
    }
}

#[test]
fn progress_counter_reaches_total_exactly_once() {
    let mut c = ProgressCounter::new(250);
    let mut emitted = 0;
    for _ in 0..250 {
        if c.increment() {
            emitted += 1;
        }
    }
    assert_eq!(c.count, 250);
    assert_eq!(c.total, 250);
    assert_eq!(emitted, 2);
}

#[test]
fn progress_counter_emits_at_hundreds() {
    let mut c = ProgressCounter::new(105);
    for i in 1..=105usize {
        let emit = c.increment();
        assert_eq!(emit, i % 100 == 0);
    }
    assert_eq!(c.count, 105);
}
