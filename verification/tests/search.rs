use game_graph::search::hop_counts;

#[test]
fn hop_counts_on_a_path_and_a_stray_node() {
    let links = vec![vec![1], vec![0, 2], vec![1, 3], vec![2], vec![]];
    assert_eq!(hop_counts(&links, 0), vec![Some(0), Some(1), Some(2), Some(3), None]);
    assert_eq!(hop_counts(&links, 2), vec![Some(2), Some(1), Some(0), Some(1), None]);
    assert_eq!(hop_counts(&links, 4), vec![None, None, None, None, Some(0)]);
}

#[test]
fn hop_counts_follow_the_direction_of_the_lists() {
    let links = vec![vec![1, 2], vec![3], vec![3], vec![], vec![0]];
    assert_eq!(hop_counts(&links, 0), vec![Some(0), Some(1), Some(1), Some(2), None]);
    assert_eq!(hop_counts(&links, 3), vec![None, None, None, Some(0), None]);
    assert_eq!(hop_counts(&links, 4), vec![Some(1), Some(2), Some(2), Some(3), Some(0)]);
}

#[test]
fn hop_counts_with_loops_and_repeated_entries() {
    let links = vec![vec![0, 1, 1], vec![1, 0, 2], vec![2]];
    assert_eq!(hop_counts(&links, 0), vec![Some(0), Some(1), Some(2)]);
    assert_eq!(hop_counts(&links, 2), vec![None, None, Some(0)]);
}
