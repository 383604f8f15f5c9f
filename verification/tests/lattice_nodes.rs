use petektools::gridding::band::band_slot;
use petektools::gridding::coincident::group_coincident;
use petektools::gridding::controls::ControlRows;
use petektools::gridding::fold::fold_node;
use petektools::gridding::nodes::Anchors;

#[test]
fn samples_on_one_node_share_an_anchor() {
    let mut a = Anchors::new(3, 2);
    a.add_sample(1, 0, 5);
    a.add_sample(0, 1, 9);
    a.add_sample(1, 0, 7);
    let (anchor_of, nodes, samples) = a.into_parts();
    assert_eq!(anchor_of, vec![-1, 0, -1, 1, -1, -1]);
    assert_eq!(nodes, vec![(1, 0), (0, 1)]);
    assert_eq!(samples, vec![vec![5, 7], vec![9]]);
}

#[test]
fn free_nodes_run_fastest_along_the_shorter_axis() {
    // wider than tall: the fast index runs along j
    let mut a = Anchors::new(3, 2);
    a.add_sample(1, 0, 0);
    a.add_sample(0, 1, 1);
    let (free_of, free) = a.number_free_nodes();
    assert_eq!(free, vec![(0, 0), (1, 1), (2, 0), (2, 1)]);
    assert_eq!(free_of, vec![0, -1, 2, -1, 1, 3]);

    // taller than wide: the fast index runs along i
    let b = Anchors::new(2, 3);
    let (free_of, free) = b.number_free_nodes();
    assert_eq!(free, vec![(0, 0), (1, 0), (0, 1), (1, 1), (0, 2), (1, 2)]);
    assert_eq!(free_of, vec![0, 1, 2, 3, 4, 5]);
}

#[test]
fn a_fully_anchored_lattice_has_no_free_nodes() {
    let mut a = Anchors::new(2, 1);
    a.add_sample(0, 0, 3);
    a.add_sample(1, 0, 4);
    let (free_of, free) = a.number_free_nodes();
    assert!(free.is_empty());
    assert_eq!(free_of, vec![-1, -1]);
}

#[test]
fn band_slots_are_row_major_with_the_diagonal_centred() {
    assert_eq!(band_slot(4, 1, 0, 0), 1);
    assert_eq!(band_slot(4, 1, 0, 1), 2);
    assert_eq!(band_slot(4, 1, 1, 0), 3);
    assert_eq!(band_slot(4, 1, 2, 1), 6);
    assert_eq!(band_slot(4, 1, 3, 3), 10);
    assert_eq!(band_slot(5, 0, 4, 4), 4);
}

#[test]
fn recontrolling_a_node_reuses_its_row() {
    let mut c = ControlRows::new(3);
    assert_eq!(c.place(1, 2), (3, true));
    assert_eq!(c.place(0, 0), (4, true));
    assert_eq!(c.place(1, 2), (3, false));
    assert_eq!(c.place(2, 1), (5, true));
    assert_eq!(c.place(0, 0), (4, false));
}

#[test]
fn far_off_nodes_get_their_own_rows() {
    let mut c = ControlRows::new(0);
    assert_eq!(c.place(usize::MAX, 0), (0, true));
    assert_eq!(c.place(0, usize::MAX), (1, true));
    assert_eq!(c.place(usize::MAX, usize::MAX), (2, true));
    assert_eq!(c.place(usize::MAX, 0), (0, false));
}

#[test]
fn re_controlling_a_node_reuses_the_slot() {
    // five scattered samples, then fifty controls on one node
    let base = 5;
    let mut c = ControlRows::new(base);
    let (first, fresh) = c.place(6, 7);
    assert!(fresh);
    assert_eq!(first, base);
    for _ in 1..50 {
        assert_eq!(c.place(6, 7), (base, false));
    }
    // the next distinct node gets the next row: one row was used in all
    assert_eq!(c.place(0, 0), (base + 1, true));
}

#[test]
fn coincident_keys_share_a_group_in_first_appearance_order() {
    let keys = [(5, 1), (2, 2), (5, 1), (7, 0), (2, 2), (5, 1)];
    let (group, first, count) = group_coincident(&keys);
    assert_eq!(group, vec![0, 1, 0, 2, 1, 0]);
    assert_eq!(first, vec![0, 1, 3]);
    assert_eq!(count, vec![3, 2, 1]);
    let (group, first, count) = group_coincident(&[]);
    assert!(group.is_empty() && first.is_empty() && count.is_empty());
}

#[test]
fn stencil_nodes_past_an_edge_fold_linearly() {
    assert_eq!(fold_node(3, 3, 1, 1), vec![(1, 1, 1)]);
    assert_eq!(fold_node(3, 3, -1, 0), vec![(0, 0, 2), (1, 0, -1)]);
    assert_eq!(fold_node(3, 3, -2, 0), vec![(0, 0, 4), (1, 0, -2), (0, 0, -1)]);
    assert_eq!(fold_node(3, 3, 3, 1), vec![(2, 1, 2), (1, 1, -1)]);
    assert_eq!(fold_node(3, 3, -1, -1), vec![(0, 0, 4), (0, 1, -2), (1, 0, -2), (1, 1, 1)]);
}

#[test]
fn folded_weights_reproduce_a_plane() {
    for i in -2..6isize {
        for j in -2..5isize {
            let f = fold_node(4, 3, i, j);
            let w: i64 = f.iter().map(|x| x.2).sum();
            let wi: i64 = f.iter().map(|x| x.2 * x.0 as i64).sum();
            let wj: i64 = f.iter().map(|x| x.2 * x.1 as i64).sum();
            assert_eq!((w, wi, wj), (1, i as i64, j as i64), "({i}, {j})");
        }
    }
}
