use equibipartite::get_equi_partition;
use equibipartite::Partition;

#[test]
fn it_returns_none_when_no_equi_partition_exists() {
    let test_cases = vec![
        vec![],
        vec![2],
        vec![1, 2],
        vec![1, 1, 2, 6],
        vec![1, 2, 3, 4, 5],
    ];
    for test_case in test_cases {
        let partition = get_equi_partition(&test_case);
        assert!(
            partition.is_none(),
            "Found {:#?} - expected None",
            partition
        );
    }
}

#[test]
fn it_returns_equi_partition_when_exists() {
    assert_eq!(
        get_equi_partition(&vec![1, 1]),
        Some(Partition {
            left: vec![1],
            right: vec![1]
        })
    );

    let test_cases = vec![vec![1, 2, 3], vec![1, 2, 2, 3], vec![10, 1, 2, 3, 4]];

    for mut test_case in test_cases {
        let partition = get_equi_partition(&test_case).unwrap();
        let sum_left: i64 = partition.left.iter().sum();
        let sum_right: i64 = partition.right.iter().sum();
        assert_eq!(
            sum_left, sum_right,
            "sum({:#?}) != sum({:#?})",
            partition.left, partition.right
        );
        let mut union = [&partition.left[..], &partition.right[..]].concat();
        union.sort_unstable();
        test_case.sort_unstable();
        assert_eq!(
            union, test_case,
            "{:#?} is an invalid partition of {:#?}",
            partition, test_case
        );
    }
}
