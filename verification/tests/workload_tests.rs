use coremark::workload::{benchmark_list, benchmark_matrix, benchmark_state};

#[test]
fn test_benchmarks_are_deterministic() {
    let mut c1: u16 = 0;
    let mut c2: u16 = 0;
    for _ in 0..3 {
        benchmark_list(&mut c1);
        benchmark_matrix(&mut c1);
        benchmark_state(&mut c1);
    }
    for _ in 0..3 {
        benchmark_list(&mut c2);
        benchmark_matrix(&mut c2);
        benchmark_state(&mut c2);
    }
    assert_eq!(c1, c2);
}

#[test]
fn test_benchmarks_fold_into_crc() {
    let mut crc: u16 = 0;
    benchmark_list(&mut crc);
    let after_list = crc;
    benchmark_matrix(&mut crc);
    let after_matrix = crc;
    benchmark_state(&mut crc);
    assert_ne!(after_list, 0);
    assert_ne!(after_matrix, after_list);
    assert_ne!(crc, after_matrix);
}
