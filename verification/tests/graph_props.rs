use zigzag::graph::Graph;

fn test_seed() -> [u32; 7] {
    [1, 2, 3, 4, 5, 6, 7]
}

fn built(nodes: usize, m: usize, d: usize) -> Graph {
    let mut g = Graph::new(nodes, m, d, test_seed());
    g.gen_parents_cache();
    g
}

fn parents_of(g: &Graph, node: usize, layer: usize) -> Vec<usize> {
    let mut ps: Vec<usize> = Vec::new();
    g.parents(node, layer, &mut ps);
    ps
}

#[test]
fn first_two_nodes_padded_drg_half() {
    let g = built(4, 2, 0);
    assert_eq!(&parents_of(&g, 0, 0)[0..2], &[0, 0]);
    assert_eq!(&parents_of(&g, 1, 0)[0..2], &[0, 0]);
}

#[test]
fn generation_is_deterministic() {
    let g1 = built(16, 3, 4);
    let g2 = built(16, 3, 4);
    assert_eq!(g1, g2);
}

#[test]
fn drg_parents_precede_their_node() {
    let g = built(32, 4, 0);
    for node in 2..32 {
        let ps = parents_of(&g, node, 0);
        for t in 0..4 {
            assert!(ps[t] < node);
        }
    }
}

#[test]
fn expander_parents_precede_their_node() {
    let g = built(32, 2, 6);
    for node in 0..32 {
        let ps = parents_of(&g, node, 0);
        for t in 2..ps.len() {
            // padding entries are zero; real expander parents are earlier nodes
            assert!(ps[t] == 0 || ps[t] < node);
        }
    }
}

#[test]
fn parent_vector_has_fixed_width() {
    let g = built(20, 3, 5);
    for node in 0..20 {
        for layer in 0..4 {
            assert_eq!(parents_of(&g, node, layer).len(), 8);
            assert_eq!(g.degree(), 8);
        }
    }
}

#[test]
fn odd_layer_reflects_drg_half() {
    let n = 16;
    let m = 3;
    let g = built(n, m, 2);
    for node in 0..n {
        let odd = parents_of(&g, node, 1);
        let mirror_even = parents_of(&g, n - node - 1, 0);
        for t in 0..m {
            assert_eq!(odd[t], n - mirror_even[t] - 1);
        }
    }
}

#[test]
fn zero_expansion_leaves_expander_empty() {
    let n = 12;
    let g = built(n, 2, 0);
    for node in 0..n {
        for layer in 0..2 {
            let ps = parents_of(&g, node, layer);
            assert_eq!(ps.len(), 2);
        }
    }
}

#[test]
fn reverse_edges_match_forward_edges() {
    // every forward expander edge appears reversed: check through the two
    // layer views, counting edges both ways
    let n = 24;
    let d = 4;
    let g = built(n, 2, d);
    let mut forward: Vec<(usize, usize)> = Vec::new();
    let mut reversed: Vec<(usize, usize)> = Vec::new();
    // read the raw tables out of the persisted form
    let words = g.encode_graph();
    let nodes = words[0] as usize;
    let mut pos = 10;
    // skip DRG table
    for _ in 0..nodes {
        let len = words[pos] as usize;
        pos += 1 + len;
    }
    let exp_start = pos;
    let mut exp_edges = 0usize;
    for n1 in 0..nodes {
        let len = words[pos] as usize;
        pos += 1;
        for _ in 0..len {
            forward.push((n1, words[pos] as usize));
            pos += 1;
            exp_edges += 1;
        }
    }
    let mut rev_edges = 0usize;
    for n2 in 0..nodes {
        let len = words[pos] as usize;
        pos += 1;
        for _ in 0..len {
            reversed.push((words[pos] as usize, n2));
            pos += 1;
            rev_edges += 1;
        }
    }
    assert!(exp_start > 10);
    assert_eq!(exp_edges, rev_edges);
    forward.sort();
    reversed.sort();
    assert_eq!(forward, reversed);
    assert!(exp_edges > 0);
}

#[test]
fn codec_round_trip() {
    let g = built(10, 3, 3);
    let words = g.encode_graph();
    let back = Graph::decode_graph(&words).expect("an encoded graph decodes");
    assert_eq!(back, g);
    assert_eq!(back.encode_graph(), words);
}

#[test]
fn codec_rejects_truncated_input() {
    let g = built(6, 2, 2);
    let mut words = g.encode_graph();
    words.pop();
    assert!(Graph::decode_graph(&words).is_none());
}

#[test]
fn pad_parents_fills_with_zeroes() {
    let padded = zigzag::graph::pad_parents(vec![5, 6], 4);
    assert_eq!(padded, vec![5, 6, 0, 0]);
    let kept = zigzag::graph::pad_parents(vec![1, 2, 3], 2);
    assert_eq!(kept, vec![1, 2, 3]);
}

#[test]
fn sampled_parents_pinned_values() {
    // pinned golden values for the fixed test seed
    let g = built(4, 2, 0);
    let p2 = parents_of(&g, 2, 0);
    let p3 = parents_of(&g, 3, 0);
    assert_eq!(vec![p2[0], p2[1], p3[0], p3[1]], vec![1, 1, 1, 2]);
}
