use icfpc2021::td_orders::{
    degree_order, degree_order2, degree_order3, k_core_order, TreeDecomposition, NO_PARENT,
};
use icfpc2021::union_find::UnionFind;

fn path_and_point() -> Vec<Vec<usize>> {
    // 0 - 1 - 2, and 3 alone
    vec![vec![1], vec![0, 2], vec![1], vec![]]
}

#[test]
fn union_find_joins_sets() {
    let mut uf = UnionFind::new(5);
    assert!(!uf.same(0, 1));
    uf.unite(0, 1);
    uf.unite(2, 3);
    assert!(uf.same(0, 1));
    assert!(uf.same(3, 2));
    assert!(!uf.same(1, 2));
    assert_eq!(uf.size(1), 2);
    assert_eq!(uf.size(4), 1);
    assert_eq!(uf.is_root, vec![true, false, true, false, true]);
    uf.unite(1, 3);
    assert!(uf.same(0, 2));
    assert_eq!(uf.size(3), 4);
    assert_eq!(uf.find(3), 0);
    assert_eq!(uf.is_root, vec![true, false, false, false, true]);
    uf.unite(4, 2);
    assert_eq!(uf.find(4), 0);
    assert_eq!(uf.size(4), 5);
}

#[test]
fn elimination_orders() {
    let g = path_and_point();
    assert_eq!(degree_order(&g), vec![3, 0, 2, 1]);
    assert_eq!(degree_order2(&g), vec![3, 2, 0, 1]);
    assert_eq!(degree_order3(&g), vec![0, 2, 3, 1]);
    assert_eq!(k_core_order(&g), vec![3, 2, 1, 0]);
    assert_eq!(degree_order(&vec![]), Vec::<usize>::new());
}

#[test]
fn decomposition_from_an_order() {
    let td = TreeDecomposition::from_ordering(&path_and_point(), vec![0, 1, 2, 3], true);
    assert_eq!(td.order, vec![0, 1, 2, 3]);
    assert_eq!(td.parent, vec![1, 2, NO_PARENT, NO_PARENT]);
    assert_eq!(td.bag, vec![vec![1], vec![2], vec![], vec![]]);
    let triangle = vec![vec![1, 2], vec![0, 2], vec![0, 1]];
    let td = TreeDecomposition::from_ordering(&triangle, vec![0, 1, 2], true);
    assert_eq!(td.parent, vec![1, 2, NO_PARENT]);
    assert_eq!(td.bag, vec![vec![1, 2], vec![2], vec![]]);
    let td = TreeDecomposition::from_ordering(&triangle, vec![2, 0, 1], false);
    assert_eq!(td.parent, vec![1, NO_PARENT, 0]);
    assert_eq!(td.bag, vec![Vec::<usize>::new(), vec![], vec![]]);
}

#[test]
fn every_edge_lies_in_the_bag_of_its_earlier_end() {
    // A 4-cycle with a chord, and a pendant vertex.
    let g: Vec<Vec<usize>> =
        vec![vec![1, 3, 2], vec![0, 2], vec![1, 3, 0], vec![2, 0, 4], vec![3]];
    for order in [vec![0, 1, 2, 3, 4], vec![4, 3, 2, 1, 0], vec![1, 4, 0, 3, 2]] {
        let td = TreeDecomposition::from_ordering(&g, order.clone(), true);
        let pos = |v: usize| order.iter().position(|&w| w == v).unwrap();
        for u in 0..g.len() {
            for &v in &g[u] {
                if v != u && pos(u) < pos(v) {
                    assert!(td.bag[u].contains(&v), "order {:?}: edge {}-{}", order, u, v);
                }
            }
        }
    }
}

#[test]
fn a_child_bag_lies_in_its_parent_bag() {
    let g: Vec<Vec<usize>> =
        vec![vec![1, 3, 2], vec![0, 2], vec![1, 3, 0], vec![2, 0, 4], vec![3]];
    for order in [vec![0, 1, 2, 3, 4], vec![4, 3, 2, 1, 0], vec![1, 4, 0, 3, 2]] {
        let td = TreeDecomposition::from_ordering(&g, order.clone(), true);
        for w in 0..g.len() {
            let p = td.parent[w];
            if p != NO_PARENT {
                assert!(p < g.len());
                for &x in &td.bag[w] {
                    assert!(x == p || td.bag[p].contains(&x), "order {:?}: {} of bag {} not in bag {}", order, x, w, p);
                }
            }
        }
    }
}
