use gazflow::components::floating_components;

#[test]
fn floating_components_skip_the_anchored_one() {
    let links = vec![(0usize, 1usize), (2, 3)];
    let resolve = vec![0usize, 1, 2, 3];
    let fixed = vec![true, false, false, false];
    let r = floating_components(&links, &resolve, &fixed);
    assert_eq!(r, vec![vec![2usize, 3]]);
}

#[test]
fn floating_components_list_isolated_nodes_in_order() {
    let links: Vec<(usize, usize)> = Vec::new();
    let resolve = vec![0usize, 1, 2];
    let fixed = vec![false, true, false];
    let r = floating_components(&links, &resolve, &fixed);
    assert_eq!(r, vec![vec![0usize], vec![2usize]]);
}

#[test]
fn floating_components_leave_out_aliased_nodes() {
    let links = vec![(0usize, 2usize)];
    let resolve = vec![0usize, 0, 2];
    let fixed = vec![false, false, false];
    let r = floating_components(&links, &resolve, &fixed);
    assert_eq!(r, vec![vec![0usize, 2]]);
}

#[test]
fn floating_components_follow_links_in_both_directions() {
    // 3 -> 1 and 1 -> 0 join 0, 1 and 3; node 2 is held by its fixed pressure.
    let links = vec![(3usize, 1usize), (1, 0)];
    let resolve = vec![0usize, 1, 2, 3];
    let fixed = vec![false, false, true, false];
    let r = floating_components(&links, &resolve, &fixed);
    assert_eq!(r.len(), 1);
    let mut c = r[0].clone();
    assert_eq!(c[0], 0);
    c.sort();
    assert_eq!(c, vec![0usize, 1, 3]);
}

#[test]
fn floating_components_empty_when_every_component_is_anchored() {
    let links = vec![(0usize, 1usize), (1, 2)];
    let resolve = vec![0usize, 1, 2];
    let fixed = vec![false, false, true];
    let r = floating_components(&links, &resolve, &fixed);
    assert!(r.is_empty());
}
