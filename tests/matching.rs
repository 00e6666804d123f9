use maximizer::bitarray::{zero, BitArray};
use maximizer::line_superiority::{
    is_inferior_to, maximum_matching_hopcroft_karp, maximum_matching_push_relabel,
    maximum_matching_simple,
};

fn all_three(g: &[Vec<usize>]) -> (bool, bool, bool) {
    (
        maximum_matching_simple(g),
        maximum_matching_hopcroft_karp(g),
        maximum_matching_push_relabel(g),
    )
}

#[test]
fn four_node_graph_has_perfect_matching() {
    let g = vec![vec![0, 2], vec![0, 1], vec![3, 0], vec![0, 3, 2]];
    assert_eq!(all_three(&g), (true, true, true));
}

#[test]
fn nine_node_graph_matchers_agree() {
    let g = vec![
        vec![1, 4, 5, 6, 8],
        vec![5, 6, 7],
        vec![0, 3, 4, 5, 6, 7, 8],
        vec![2, 3, 4, 7],
        vec![0, 1, 2, 5, 8],
        vec![2, 4, 5, 6],
        vec![0, 1, 2, 4, 5, 6, 7, 8],
        vec![0, 1, 2, 5, 7, 8],
        vec![0, 1, 2, 3, 7],
    ];
    assert_eq!(all_three(&g), (true, true, true));
}

#[test]
fn crowded_vertex_blocks_matching() {
    let g = vec![vec![0], vec![0], vec![1, 2]];
    assert_eq!(all_three(&g), (false, false, false));
}

#[test]
fn isolated_vertex_blocks_matching() {
    let g = vec![vec![0, 1], vec![], vec![1]];
    assert_eq!(all_three(&g), (false, false, false));
}

#[test]
fn hall_violation_needs_augmenting_search() {
    // A0 and A1 share B0 and B1 only with A2 and A3 also limited to them.
    let g = vec![vec![0, 1], vec![0, 1], vec![1, 2], vec![0, 1]];
    assert_eq!(all_three(&g), (false, false, false));
}

#[test]
fn long_augmenting_path() {
    let g = vec![vec![0, 1], vec![1, 2], vec![2, 3], vec![0]];
    assert_eq!(all_three(&g), (true, true, true));
}

#[test]
fn empty_graph_is_matched() {
    let g: Vec<Vec<usize>> = vec![];
    assert_eq!(all_three(&g), (true, true, true));
}

#[test]
fn duplicate_neighbours() {
    let g = vec![vec![0, 0], vec![0, 0]];
    assert_eq!(all_three(&g), (false, false, false));
    let h = vec![vec![1, 1, 0], vec![1]];
    assert_eq!(all_three(&h), (true, true, true));
}

fn set_of(bits: &[usize]) -> BitArray<1> {
    let mut s = zero::<1>();
    for &b in bits {
        s.set(b);
    }
    s
}

#[test]
fn fixed_lines_domination() {
    let ab_ac = [set_of(&[0, 1]), set_of(&[0, 2])];
    let a_abc = [set_of(&[0]), set_of(&[0, 1, 2])];
    let abc_a = [set_of(&[0, 1, 2]), set_of(&[0])];
    let ab_abc = [set_of(&[0, 1]), set_of(&[0, 1, 2])];
    assert!(!is_inferior_to(&ab_ac, &a_abc));
    assert!(!is_inferior_to(&a_abc, &ab_ac));
    assert!(is_inferior_to(&a_abc, &abc_a));
    assert!(is_inferior_to(&abc_a, &a_abc));
    assert!(is_inferior_to(&a_abc, &ab_abc));
    assert!(!is_inferior_to(&ab_abc, &a_abc));
    assert!(is_inferior_to(&ab_ac, &ab_ac));
}
