use lambo::path::ClosurePath;

#[test]
fn a_new_path_is_empty() {
    assert!(ClosurePath::new().0.is_empty());
}

#[test]
fn depth_counts_from_the_innermost_closure() {
    let mut path = ClosurePath::new();
    path.register(10);
    path.register(20);
    path.register(30);
    assert_eq!(path.get_at_depth(1), 30);
    assert_eq!(path.get_at_depth(2), 20);
    assert_eq!(path.get_at_depth(3), 10);
}

#[test]
fn register_after_depth_goes_right_inside() {
    let mut path = ClosurePath::new();
    path.register(10);
    path.register(20);
    path.register_after_depth(15, 2);
    assert_eq!(path.0, vec![10, 15, 20]);
    path.register_after_depth(25, 1);
    assert_eq!(path.0, vec![10, 15, 20, 25]);
    path.register_after_depth(5, 5);
    assert_eq!(path.0, vec![5, 10, 15, 20, 25]);
}

#[test]
fn backtrack_leaves_from_the_last_occurrence_on() {
    let mut path = ClosurePath::new();
    for id in [1, 2, 3, 2, 4] {
        path.register(id);
    }
    let rest = path.backtrack_before_closure(2);
    assert_eq!(path.0, vec![1, 2, 3]);
    assert_eq!(rest, vec![2, 4]);
    path.restore_backtrack(rest);
    assert_eq!(path.0, vec![1, 2, 3, 2, 4]);
    let rest = path.backtrack_before_closure(1);
    assert!(path.0.is_empty());
    assert_eq!(rest, vec![1, 2, 3, 2, 4]);
}
