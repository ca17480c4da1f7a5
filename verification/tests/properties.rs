use equibipartite::get_equi_partition;
use equibipartite::get_subset_with_sum;
use equibipartite::OccurrenceCount;
use equibipartite::Partition;

fn assert_valid_partition(input: &[i64], partition: &Partition) {
    let sum_left: i64 = partition.left.iter().sum();
    let sum_right: i64 = partition.right.iter().sum();
    assert_eq!(sum_left, sum_right);
    let mut union = [&partition.left[..], &partition.right[..]].concat();
    union.sort_unstable();
    let mut sorted_input = input.to_vec();
    sorted_input.sort_unstable();
    assert_eq!(union, sorted_input);
}

#[test]
fn repeated_calls_agree() {
    let inputs = vec![
        vec![],
        vec![2],
        vec![1, 1],
        vec![1, 2, 3],
        vec![1, 1, 2, 6],
        vec![10, 1, 2, 3, 4],
        vec![-1, 1, -2, 2],
    ];
    for input in inputs {
        let first = get_equi_partition(&input);
        let second = get_equi_partition(&input);
        assert_eq!(first, second);
    }
}

#[test]
fn negative_odd_total_is_refused() {
    assert!(get_equi_partition(&[-3]).is_none());
    assert!(get_equi_partition(&[-1, -2]).is_none());
    assert!(get_equi_partition(&[-1, 2]).is_none());
}

#[test]
fn single_elements() {
    assert!(get_equi_partition(&[-2]).is_none());
    assert!(get_equi_partition(&[7]).is_none());
    // A single zero is the one singleton with a split: nothing on the left,
    // the zero on the right, both sides summing to zero.
    assert_eq!(
        get_equi_partition(&[0]),
        Some(Partition {
            left: vec![],
            right: vec![0]
        })
    );
}

#[test]
fn zero_total_splits_immediately() {
    // Half of zero is zero, which the search satisfies with the empty subset.
    let partition = get_equi_partition(&[-1, 1]).unwrap();
    assert_eq!(partition.left, vec![]);
    let mut right = partition.right.clone();
    right.sort_unstable();
    assert_eq!(right, vec![-1, 1]);
}

#[test]
fn equal_duplicates_split_one_each_side() {
    assert_eq!(
        get_equi_partition(&[2, 2]),
        Some(Partition {
            left: vec![2],
            right: vec![2]
        })
    );
    let partition = get_equi_partition(&[5, 5, 5, 5]).unwrap();
    assert_valid_partition(&[5, 5, 5, 5], &partition);
}

#[test]
fn negative_values_partition() {
    let input = vec![-4, 4, -2, 2];
    let partition = get_equi_partition(&input).unwrap();
    assert_valid_partition(&input, &partition);
}

#[test]
fn larger_example_partitions() {
    let input = vec![1, 4, 7, 35, 2, 1, 18, 6];
    let partition = get_equi_partition(&input).unwrap();
    assert_valid_partition(&input, &partition);
    assert!(get_equi_partition(&[1, 2, 3, 4, 5, 6]).is_none());
}

#[test]
fn large_magnitudes_partition() {
    let big: i64 = 1 << 60;
    assert_eq!(
        get_equi_partition(&[big, big]),
        Some(Partition {
            left: vec![big],
            right: vec![big]
        })
    );
    assert!(get_equi_partition(&[-big, big, 1]).is_none());
}

#[test]
fn occurrence_counts_round_trip() {
    let counts = OccurrenceCount::from_vec(&[3, 1, 3]);
    assert_eq!(counts.to_vec(), vec![3, 3, 1]);
}

#[test]
fn occurrence_counts_subtract_and_clamp() {
    let mut counts = OccurrenceCount::from_vec(&[3, 1, 3]);
    counts.sub_assign(&OccurrenceCount::from_vec(&[3]));
    assert_eq!(counts.to_vec(), vec![3, 1]);

    // Subtracting more occurrences than are present bottoms out at zero.
    let mut scarce = OccurrenceCount::from_vec(&[1]);
    scarce.sub_assign(&OccurrenceCount::from_vec(&[1, 1]));
    assert_eq!(scarce.to_vec(), vec![]);

    // A value absent from the left table is ignored.
    let mut absent = OccurrenceCount::from_vec(&[4]);
    absent.sub_assign(&OccurrenceCount::from_vec(&[9]));
    assert_eq!(absent.to_vec(), vec![4]);
}

#[test]
fn from_subset_respects_duplicates() {
    let partition = Partition::from_subset(&[1, 1, 2], &[1, 2]);
    assert_eq!(partition.left, vec![1, 2]);
    assert_eq!(partition.right, vec![1]);
}

#[test]
fn subset_search_finds_exact_sum() {
    assert_eq!(get_subset_with_sum(&vec![3, 2, 1], 3, 3), Some(vec![3]));
    assert_eq!(get_subset_with_sum(&vec![3, 2, 1], 0, 3), Some(vec![]));
    // The first candidate exceeds the required sum and its exclusion blows
    // the complement budget, aborting the whole search.
    assert_eq!(get_subset_with_sum(&vec![6, 2, 1, 1], 5, 5), None);
}
