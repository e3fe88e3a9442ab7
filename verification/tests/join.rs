use hyperpath::build_path;
use hyperpath::choose_best_option;
use hyperpath::find_branching_point;
use hyperpath::choose_shortest_path;

#[test]
fn branching_point_deepest_pair() {
    let a: Vec<u64> = vec![10, 20, 30];
    let b: Vec<u64> = vec![10, 20, 40];
    assert_eq!(find_branching_point(&a, &b), Some((1, 1)));
}

#[test]
fn branching_point_no_common() {
    let a: Vec<u64> = vec![10, 20];
    let b: Vec<u64> = vec![11, 21];
    assert_eq!(find_branching_point(&a, &b), None);
}

#[test]
fn branching_point_tie_keeps_later_pair() {
    let a: Vec<u64> = vec![1, 2];
    let b: Vec<u64> = vec![2, 1];
    // (0, 1) and (1, 0) tie on the index sum; the pair found later wins.
    assert_eq!(find_branching_point(&a, &b), Some((1, 0)));
}

#[test]
fn branching_point_first_position_in_second_path() {
    let a: Vec<u64> = vec![5];
    let b: Vec<u64> = vec![5, 5];
    // The second index is the first occurrence in b, not the deepest.
    assert_eq!(find_branching_point(&a, &b), Some((0, 0)));
}

#[test]
fn build_path_simple_join() {
    let a: Vec<u64> = vec![10, 20, 30];
    let b: Vec<u64> = vec![10, 20, 40];
    assert_eq!(build_path(&a, &b), Some(vec![30, 20, 40]));
}

#[test]
fn build_path_join_identity_lengths() {
    // Exactly one shared AS at positions (1, 0).
    let a: Vec<u64> = vec![1, 7, 3];
    let b: Vec<u64> = vec![7, 9];
    let joined = build_path(&a, &b).unwrap();
    assert_eq!(joined, vec![3, 7, 9]);
    assert_eq!(joined.len(), (a.len() - 1) + (b.len() - 0 - 1));
}

#[test]
fn build_path_self_join_distinct() {
    let p: Vec<u64> = vec![1, 2, 3];
    assert_eq!(build_path(&p, &p), Some(vec![3]));
}

#[test]
fn build_path_self_join_with_duplicates() {
    // A repeated AS makes the self-join pick the pair (1, 0), so the
    // result is not a single element.
    let p: Vec<u64> = vec![5, 5];
    assert_eq!(build_path(&p, &p), Some(vec![5, 5]));
}

#[test]
fn build_path_no_common() {
    let a: Vec<u64> = vec![1, 2];
    let b: Vec<u64> = vec![3, 4];
    assert_eq!(build_path(&a, &b), None);
}

#[test]
fn best_option_strictly_deeper_current_wins() {
    assert_eq!(choose_best_option((1, 2), (3, 1)), (3, 1));
    assert_eq!(choose_best_option((3, 1), (1, 2)), (3, 1));
}

#[test]
fn best_option_tie_keeps_fresh_pair() {
    assert_eq!(choose_best_option((2, 2), (1, 3)), (2, 2));
}

#[test]
fn shortest_path_choice() {
    let shorter: Vec<u64> = vec![1, 2];
    let longer: Vec<u64> = vec![1, 2, 3];
    assert_eq!(choose_shortest_path(shorter.clone(), longer.clone()), shorter);
    assert_eq!(choose_shortest_path(longer.clone(), shorter.clone()), shorter);
    // An empty retained path stands for nothing retained yet.
    assert_eq!(choose_shortest_path(longer.clone(), vec![]), longer);
    // Equal lengths keep the retained path.
    let other: Vec<u64> = vec![7, 8];
    assert_eq!(choose_shortest_path(other, shorter.clone()), shorter);
}
