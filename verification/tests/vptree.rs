use quantizr::vptree::{VpNode, VpTree};

fn line_distances(pos: &[u32]) -> Vec<Vec<u32>> {
    pos.iter()
        .map(|&a| pos.iter().map(|&b| (a as i64 - b as i64).pow(2) as u32).collect())
        .collect()
}

fn collect(node: &Option<Box<VpNode>>, out: &mut Vec<u8>) {
    if let Some(n) = node {
        out.push(n.vantage);
        out.extend_from_slice(&n.rest);
        collect(&n.near, out);
        collect(&n.far, out);
    }
}

#[test]
fn empty_tree() {
    let t = VpTree::build(0, &vec![], &vec![]);
    assert!(t.root.is_none());
}

#[test]
fn single_point_tree() {
    let t = VpTree::build(1, &vec![3], &line_distances(&[0]));
    let n = t.root.as_ref().unwrap();
    assert_eq!(n.vantage, 0);
    assert!(n.rest.is_empty() && n.near.is_none() && n.far.is_none() && n.radius_point.is_none());
}

#[test]
fn small_tree_keeps_rest_sorted() {
    let pos = [0u32, 10, 20, 30];
    let t = VpTree::build(4, &vec![1, 1, 5, 1], &line_distances(&pos));
    let n = t.root.as_ref().unwrap();
    assert_eq!(n.vantage, 2);
    // ids after taking out 2: [0, 1, 3]; by distance from 20: 1 (100), 3 (100), 0 (400)
    assert_eq!(n.rest, vec![1, 3, 0]);
    assert!(n.near.is_none() && n.far.is_none() && n.radius_point.is_none());
}

#[test]
fn last_heaviest_point_is_vantage() {
    let pos = [0u32, 10, 20];
    let t = VpTree::build(3, &vec![4, 4, 4], &line_distances(&pos));
    assert_eq!(t.root.as_ref().unwrap().vantage, 2);
}

#[test]
fn split_tree_shape() {
    let pos = [0u32, 10, 20, 30, 40, 50, 60, 70];
    let w = vec![5, 1, 7, 3, 9, 2, 8, 4];
    let t = VpTree::build(8, &w, &line_distances(&pos));
    let root = t.root.as_ref().unwrap();
    assert_eq!(root.vantage, 4);
    assert!(root.rest.is_empty());
    assert_eq!(root.radius_point, Some(6));
    let near = root.near.as_ref().unwrap();
    assert_eq!(near.vantage, 2);
    assert_eq!(near.rest, vec![3, 5]);
    assert!(near.near.is_none() && near.far.is_none());
    let far = root.far.as_ref().unwrap();
    assert_eq!(far.vantage, 6);
    assert_eq!(far.rest, vec![7, 1, 0]);
}

#[test]
fn tree_holds_every_point_once() {
    let n = 200usize;
    let pos: Vec<u32> = (0..n as u32).map(|i| (i * 37) % 211).collect();
    let w: Vec<u32> = (0..n as u32).map(|i| (i * 13) % 17).collect();
    let d = line_distances(&pos);
    let t = VpTree::build(n, &w, &d);
    let mut all = Vec::new();
    collect(&t.root, &mut all);
    all.sort();
    assert_eq!(all, (0..n as u32).map(|i| i as u8).collect::<Vec<u8>>());
}

fn check_vantage_property(node: &Option<Box<VpNode>>, w: &[u32], d: &[Vec<u32>]) {
    if let Some(n) = node {
        let v = n.vantage as usize;
        let mut below = Vec::new();
        collect(node, &mut below);
        assert!(below.iter().all(|&p| w[p as usize] <= w[v]));
        assert!(n.rest.windows(2).all(|p| d[v][p[0] as usize] <= d[v][p[1] as usize]));
        match n.radius_point {
            None => {
                assert!(n.near.is_none() && n.far.is_none() && n.rest.len() < 7);
            }
            Some(r) => {
                let (mut near, mut far) = (Vec::new(), Vec::new());
                collect(&n.near, &mut near);
                collect(&n.far, &mut far);
                assert!(far.contains(&r));
                assert!(near.iter().all(|&p| d[v][p as usize] <= d[v][r as usize]));
                assert!(far.iter().all(|&p| d[v][p as usize] >= d[v][r as usize]));
                assert!(far.len() == near.len() || far.len() == near.len() + 1);
            }
        }
        check_vantage_property(&n.near, w, d);
        check_vantage_property(&n.far, w, d);
    }
}

#[test]
fn tree_has_vantage_property() {
    let n = 256usize;
    let pos: Vec<u32> = (0..n as u32).map(|i| (i * 101) % 997).collect();
    let w: Vec<u32> = (0..n as u32).map(|i| (i * 7919) % 23).collect();
    let d = line_distances(&pos);
    let t = VpTree::build(n, &w, &d);
    check_vantage_property(&t.root, &w, &d);
}
