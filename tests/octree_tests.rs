use xpbd_core::octree::{Octree, MAX_DEPTH, NO_CHILD};

fn path(prefix: &[u8]) -> Vec<u8> {
    let mut p = prefix.to_vec();
    p.resize(MAX_DEPTH + 1, 0);
    p
}

fn leaves(t: &Octree) -> Vec<(usize, u32)> {
    (0..t.len()).filter_map(|i| t.node(i).particle.map(|p| (i, p))).collect()
}

#[test]
fn distinct_octants_become_children_of_the_root() {
    let paths = vec![path(&[0]), path(&[7]), path(&[3])];
    let t = Octree::build(&paths, 3);
    assert_eq!(t.len(), 4);
    let root = t.node(0);
    assert_eq!(root.particle, None);
    assert_eq!(t.node(root.children[0] as usize).particle, Some(0));
    assert_eq!(t.node(root.children[7] as usize).particle, Some(1));
    assert_eq!(t.node(root.children[3] as usize).particle, Some(2));
    for o in [1, 2, 4, 5, 6] {
        assert_eq!(root.children[o], NO_CHILD);
    }
}

#[test]
fn shared_octants_split_leaves_until_the_paths_part() {
    // Both particles fall in octant 5, then 2, and part at depth 2.
    let paths = vec![path(&[5, 2, 1]), path(&[5, 2, 6])];
    let t = Octree::build(&paths, 2);
    // Root, the node at [5], the node at [5, 2], and two leaves.
    assert_eq!(t.len(), 5);
    let n1 = t.node(0).children[5] as usize;
    let n2 = t.node(n1).children[2] as usize;
    assert_eq!(t.node(n1).particle, None);
    assert_eq!(t.node(n2).particle, None);
    assert_eq!(t.node(t.node(n2).children[1] as usize).particle, Some(0));
    assert_eq!(t.node(t.node(n2).children[6] as usize).particle, Some(1));
    assert_eq!(leaves(&t).len(), 2);
}

#[test]
fn coincident_particles_keep_one_leaf_past_the_depth_cap() {
    let paths = vec![path(&[1, 1, 1]), path(&[1, 1, 1])];
    let t = Octree::build(&paths, 2);
    let held = leaves(&t);
    assert_eq!(held.len(), 1);
    assert_eq!(held[0].1, 0);
    // The root, one node per depth 1 ..= MAX_DEPTH, and the leaf one level below.
    assert_eq!(t.len(), MAX_DEPTH + 2);
}

#[test]
fn children_stand_after_their_parents() {
    let paths: Vec<Vec<u8>> = (0..20u8).map(|i| path(&[i % 8, (i / 8) % 8, i % 3])).collect();
    let t = Octree::build(&paths, 20);
    for i in 0..t.len() {
        let node = t.node(i);
        for &c in node.children.iter() {
            assert!(c == NO_CHILD || (c as usize > i && (c as usize) < t.len()));
        }
        if node.particle.is_some() {
            assert!(node.children.iter().all(|&c| c == NO_CHILD));
        }
    }
    let mut held: Vec<u32> = leaves(&t).iter().map(|&(_, p)| p).collect();
    held.sort();
    held.dedup();
    assert_eq!(held.len(), leaves(&t).len());
    assert_eq!(held.len(), 20);
}

#[test]
fn insert_reports_the_leaf_it_filled() {
    let paths = vec![path(&[2]), path(&[2, 4])];
    let mut t = Octree::new();
    let a = t.insert(0, &paths).unwrap();
    assert_eq!(t.node(a as usize).particle, Some(0));
    let b = t.insert(1, &paths).unwrap();
    assert_eq!(t.node(b as usize).particle, Some(1));
}

#[test]
fn mass_nodes_follow_the_octants_to_the_leaf() {
    let paths = vec![path(&[5, 2, 1]), path(&[5, 2, 6]), path(&[3])];
    let t = Octree::build(&paths, 3);
    let n1 = t.node(0).children[5];
    let n2 = t.node(n1 as usize).children[2];
    let leaf0 = t.node(n2 as usize).children[1];
    assert_eq!(t.mass_nodes(&paths[0], 0), vec![0, n1, n2, leaf0]);
    let leaf2 = t.node(0).children[3];
    assert_eq!(t.mass_nodes(&paths[2], 2), vec![0, leaf2]);
}

#[test]
fn mass_nodes_of_a_dropped_particle_stop_at_the_cap() {
    let paths = vec![path(&[1, 1, 1]), path(&[1, 1, 1])];
    let t = Octree::build(&paths, 2);
    // The kept particle counts in every node down to its leaf below the cap.
    assert_eq!(t.mass_nodes(&paths[0], 0).len(), MAX_DEPTH + 2);
    // The dropped one counts in the nodes down to MAX_DEPTH only.
    assert_eq!(t.mass_nodes(&paths[1], 1).len(), MAX_DEPTH + 1);
}

#[test]
fn only_particles_sharing_all_octants_with_an_earlier_one_are_dropped() {
    // Particle 2 shares every octant with particle 0; particle 1 parts from 0 at
    // the last level that counts.
    let mut deep = path(&[4, 4]);
    deep[MAX_DEPTH] = 1;
    let paths = vec![path(&[4, 4]), deep, path(&[4, 4])];
    let t = Octree::build(&paths, 3);
    let mut held: Vec<u32> = leaves(&t).iter().map(|&(_, p)| p).collect();
    held.sort();
    assert_eq!(held, vec![0, 1]);
}

#[test]
fn insert_drops_a_particle_only_when_a_held_one_shares_its_octants() {
    let paths = vec![path(&[6, 1]), path(&[6, 1]), path(&[6, 2])];
    let mut t = Octree::new();
    assert!(t.insert(0, &paths).is_some());
    assert!(t.insert(1, &paths).is_none());
    assert!(t.insert(2, &paths).is_some());
}
