use zigzag::graph::Graph;
use zigzag::replicate::{r2, NodeStore, ReplicationError};

fn test_seed() -> [u32; 7] {
    [7, 6, 5, 4, 3, 2, 1]
}

fn built(nodes: usize, m: usize, d: usize) -> Graph {
    let mut g = Graph::new(nodes, m, d, test_seed());
    g.gen_parents_cache();
    g
}

fn sector(nodes: usize) -> Vec<Vec<u8>> {
    (0..nodes)
        .map(|i| {
            let mut b = vec![0u8; 32];
            b[0] = i as u8;
            b
        })
        .collect()
}

#[test]
fn replication_changes_every_block_deterministically() {
    let g = built(8, 2, 3);
    let id = vec![9u8; 32];
    let mut store1 = NodeStore::new(sector(8)).unwrap();
    let mut store2 = NodeStore::new(sector(8)).unwrap();
    assert!(r2(&id, &mut store1, &g, 1).is_ok());
    assert!(r2(&id, &mut store2, &g, 1).is_ok());
    let out1 = store1.into_data();
    let out2 = store2.into_data();
    assert_eq!(out1, out2);
    let orig = sector(8);
    for i in 0..8 {
        assert_ne!(out1[i], orig[i]);
        assert_eq!(out1[i].len(), 32);
    }
}

#[test]
fn replica_identifier_binds_the_encoding() {
    let g = built(6, 2, 2);
    let mut s1 = NodeStore::new(sector(6)).unwrap();
    let mut s2 = NodeStore::new(sector(6)).unwrap();
    assert!(r2(&vec![1u8; 32], &mut s1, &g, 1).is_ok());
    assert!(r2(&vec![2u8; 32], &mut s2, &g, 1).is_ok());
    assert_ne!(s1.into_data(), s2.into_data());
}

#[test]
fn multi_layer_differs_from_single_layer() {
    let g = built(6, 2, 2);
    let id = vec![3u8; 32];
    let mut s1 = NodeStore::new(sector(6)).unwrap();
    let mut s2 = NodeStore::new(sector(6)).unwrap();
    assert!(r2(&id, &mut s1, &g, 1).is_ok());
    assert!(r2(&id, &mut s2, &g, 2).is_ok());
    assert_ne!(s1.into_data(), s2.into_data());
}

#[test]
fn bad_replica_id_is_refused() {
    let g = built(4, 2, 0);
    let mut s = NodeStore::new(sector(4)).unwrap();
    assert_eq!(r2(&vec![0u8; 31], &mut s, &g, 1), Err(ReplicationError::BadReplicaId));
    assert_eq!(s.into_data(), sector(4));
}

#[test]
fn wrong_store_size_is_refused() {
    let g = built(4, 2, 0);
    let mut s = NodeStore::new(sector(5)).unwrap();
    assert_eq!(r2(&vec![0u8; 32], &mut s, &g, 1), Err(ReplicationError::WrongStoreSize));
}

#[test]
fn corrupt_node_data_is_refused() {
    let g = built(4, 2, 0);
    let mut blocks = sector(4);
    blocks[2] = vec![0xffu8; 32];
    let mut s = NodeStore::new(blocks.clone()).unwrap();
    assert_eq!(r2(&vec![0u8; 32], &mut s, &g, 1), Err(ReplicationError::CorruptNodeData));
    assert_eq!(s.into_data(), blocks);
}

#[test]
fn store_refuses_misshapen_blocks() {
    let mut blocks = sector(3);
    blocks[1] = vec![0u8; 31];
    assert!(NodeStore::new(blocks).is_none());
    assert!(NodeStore::new(sector(3)).is_some());
}

#[test]
fn zero_expansion_replication_works() {
    let g = built(4, 2, 0);
    let id = vec![5u8; 32];
    let mut s = NodeStore::new(sector(4)).unwrap();
    assert!(r2(&id, &mut s, &g, 2).is_ok());
    let out = s.into_data();
    for i in 0..4 {
        assert_ne!(out[i], sector(4)[i]);
    }
}

#[test]
fn replica_pinned_first_byte() {
    // pinned golden value: first block of a tiny replica for the fixed seed
    let g = built(4, 2, 1);
    let id = vec![8u8; 32];
    let mut s = NodeStore::new(sector(4)).unwrap();
    assert!(r2(&id, &mut s, &g, 1).is_ok());
    let out = s.into_data();
    assert_eq!(out[0][0..4], [235, 80, 17, 130]);
}
