use vstd::prelude::*;
use crate::field::{fr_add, fr_add_spec, fr_safe, fr_safe_spec, fr_valid, is_fr};
use crate::graph::{Graph, lemma_parents_in_range, parents_spec};

verus! {

// The per-layer encoding engine: walk the nodes in index order, derive each
// node's key from its parents' current values and the replica identifier,
// and add the key to the node's value in the field.

/// What the BLAKE2s-256 digest of a byte string is: a pure function of the
/// input bytes alone.
pub uninterp spec fn blake2s_of(input: Seq<u8>) -> Seq<u8>;

/// Relies on blake2s_simd: the BLAKE2s digest at hash length 32 of the input
/// bytes, deterministic in the input alone; streamed updates hash the
/// concatenation of their inputs.
#[verifier::external_body]
fn blake2s_hash(data: &Vec<u8>) -> (r: Vec<u8>)
    ensures
        r@ == blake2s_of(data@),
        r@.len() == 32,
{
    let mut state = blake2s_simd::Params::new().hash_length(32).to_state();
    state.update(data.as_slice());
    state.finalize().as_bytes().to_vec()
}

/// Fixed-size node storage: one 32-byte block per node, with an advisory
/// prefetch hint.
pub struct NodeStore {
    data: Vec<Vec<u8>>,
}

impl NodeStore {
    /// The stored blocks.
    pub closed spec fn contents(self) -> Seq<Seq<u8>> {
        Seq::new(self.data@.len(), |i: int| self.data@[i]@)
    }

    /// Every block is exactly one node wide.
    pub closed spec fn wf(self) -> bool {
        forall|i: int| 0 <= i < self.contents().len() ==> (#[trigger] self.contents()[i]).len()
            == 32
    }

    /// Wraps the given blocks; refuses any block that is not 32 bytes.
    pub fn new(data: Vec<Vec<u8>>) -> (r: Option<NodeStore>)
        ensures
            match r {
                Some(s) => s.wf() && s.contents() == Seq::new(
                    data@.len(),
                    |i: int| data@[i]@,
                ),
                None => exists|i: int| 0 <= i < data@.len() && (#[trigger] data@[i])@.len() != 32,
            },
    {
        let mut i: usize = 0;
        while i < data.len()
            invariant
                i <= data@.len(),
                forall|t: int| 0 <= t < i ==> (#[trigger] data@[t])@.len() == 32,
            decreases data@.len() - i,
        {
            if data[i].len() != 32 {
                return None;
            }
            i = i + 1;
        }
        Some(NodeStore { data })
    }

    /// Number of stored nodes.
    pub fn len(&self) -> (r: usize)
        ensures
            r == self.contents().len(),
    {
        self.data.len()
    }

    /// A copy of one node's bytes.
    pub fn get_node(&self, node: usize) -> (r: Vec<u8>)
        requires
            (node as int) < self.contents().len(),
        ensures
            r@ == self.contents()[node as int],
    {
        self.data[node].clone()
    }

    /// Stores one node's bytes.
    pub fn write_node(&mut self, node: usize, value: Vec<u8>)
        requires
            (node as int) < old(self).contents().len(),
        ensures
            final(self).contents() == old(self).contents().update(node as int, value@),
    {
        self.data.set(node, value);
        proof {
            assert(self.contents() =~= old(self).contents().update(node as int, value@));
        }
    }

    /// Advisory read-ahead hint; doing nothing is always correct, only
    /// slower.
    pub fn prefetch(&self, _node: usize, _reverse: bool) {
    }

    /// Hands the blocks back.
    pub fn into_data(self) -> (r: Vec<Vec<u8>>)
        ensures
            self.contents() == Seq::new(r@.len(), |i: int| r@[i]@),
    {
        self.data
    }
}

/// The digest preimage of a node's key: the replica identifier followed by
/// the first `k` parents' stored blocks, in slot order.
pub open spec fn key_preimage(id: Seq<u8>, ps: Seq<usize>, data: Seq<Seq<u8>>, k: nat) -> Seq<u8>
    decreases k,
{
    if k == 0 {
        id
    } else {
        key_preimage(id, ps, data, (k - 1) as nat) + data[ps[(k - 1) as int] as int]
    }
}

/// A node's key for one layer: the digest of the preimage, mapped into the
/// field by the canonical total reduction.
pub open spec fn key_of(id: Seq<u8>, ps: Seq<usize>, data: Seq<Seq<u8>>) -> Seq<u8> {
    fr_safe_spec(blake2s_of(key_preimage(id, ps, data, ps.len())))
}

/// One node's encoding step: add its key to its value in the field.
pub open spec fn encode_node_spec(
    g: Graph,
    id: Seq<u8>,
    data: Seq<Seq<u8>>,
    node: int,
    layer: int,
) -> Seq<Seq<u8>> {
    let ps = parents_spec(g, node, layer);
    let key = key_of(id, ps, data);
    data.update(node, fr_add_spec(data[node], key))
}

/// The store after the first `n` nodes of a layer have been encoded, in
/// index order; each key reads the values its earlier siblings just wrote.
pub open spec fn encode_prefix_spec(
    g: Graph,
    id: Seq<u8>,
    data: Seq<Seq<u8>>,
    layer: int,
    n: nat,
) -> Seq<Seq<u8>>
    decreases n,
{
    if n == 0 {
        data
    } else {
        encode_node_spec(
            g,
            id,
            encode_prefix_spec(g, id, data, layer, (n - 1) as nat),
            (n - 1) as int,
            layer,
        )
    }
}

/// One full layer.
pub open spec fn encode_layer_spec(g: Graph, id: Seq<u8>, data: Seq<Seq<u8>>, layer: int) -> Seq<
    Seq<u8>,
> {
    encode_prefix_spec(g, id, data, layer, g.node_count())
}

/// The replica after the given number of layers, parity alternating from
/// layer zero.
pub open spec fn replicate_spec(g: Graph, id: Seq<u8>, data: Seq<Seq<u8>>, layers: nat) -> Seq<
    Seq<u8>,
>
    decreases layers,
{
    if layers == 0 {
        data
    } else {
        encode_layer_spec(
            g,
            id,
            replicate_spec(g, id, data, (layers - 1) as nat),
            (layers - 1) as int,
        )
    }
}

/// Why a replication run is refused.
#[derive(PartialEq, Eq, Structural, Clone, Copy, Debug)]
pub enum ReplicationError {
    /// The replica identifier is not one node wide.
    BadReplicaId,
    /// The store holds a different number of nodes than the graph.
    WrongStoreSize,
    /// A stored block does not read as a valid field element.
    CorruptNodeData,
}

/// Computes one node's key: digest of the replica identifier and the
/// parents' current blocks in slot order, reduced into the field.
fn create_key(replica_id: &Vec<u8>, ps: &Vec<usize>, data: &NodeStore) -> (r: Vec<u8>)
    requires
        data.wf(),
        replica_id@.len() == 32,
        forall|t: int| 0 <= t < ps@.len() ==> (#[trigger] ps@[t] as int) < data.contents().len(),
    ensures
        r@ == key_of(replica_id@, ps@, data.contents()),
        is_fr(r@),
{
    let mut buf: Vec<u8> = Vec::new();
    let mut i: usize = 0;
    while i < replica_id.len()
        invariant
            i <= replica_id@.len(),
            buf@ == replica_id@.take(i as int),
        decreases replica_id@.len() - i,
    {
        buf.push(replica_id[i]);
        i = i + 1;
    }
    proof {
        assert(buf@ =~= replica_id@);
        assert(buf@ =~= key_preimage(replica_id@, ps@, data.contents(), 0));
    }
    let mut t: usize = 0;
    while t < ps.len()
        invariant
            t <= ps@.len(),
            data.wf(),
            replica_id@.len() == 32,
            forall|q: int| 0 <= q < ps@.len() ==> (#[trigger] ps@[q] as int)
                < data.contents().len(),
            buf@ == key_preimage(replica_id@, ps@, data.contents(), t as nat),
        decreases ps@.len() - t,
    {
        let mut block = data.get_node(ps[t]);
        buf.append(&mut block);
        t = t + 1;
    }
    let h = blake2s_hash(&buf);
    fr_safe(&h)
}

/// Encodes one layer in place: nodes in ascending index order, each value
/// replaced by its field sum with the node's key, prefetch hints a fixed
/// distance ahead.
fn replicate_layer(g: &Graph, replica_id: &Vec<u8>, layer: usize, data: &mut NodeStore)
    requires
        g.wf(),
        old(data).wf(),
        replica_id@.len() == 32,
        old(data).contents().len() == g.node_count(),
        forall|i: int| 0 <= i < old(data).contents().len() ==> is_fr(
            #[trigger] old(data).contents()[i],
        ),
    ensures
        final(data).wf(),
        final(data).contents() == encode_layer_spec(*g, replica_id@, old(data).contents(),
            layer as int),
        final(data).contents().len() == g.node_count(),
        forall|i: int| 0 <= i < final(data).contents().len() ==> is_fr(
            #[trigger] final(data).contents()[i],
        ),
{
    let nodes = data.len();
    let window: usize = if layer % 2 == 0 {
        4
    } else {
        2
    };
    // prime the read-ahead window
    let mut w: usize = 0;
    while w < window && w < nodes
        invariant true,
        decreases window - w,
    {
        data.prefetch(w, layer % 2 == 1);
        w = w + 1;
    }
    let ghost start = data.contents();
    let mut node: usize = 0;
    while node < nodes
        invariant
            node <= nodes,
            nodes == g.node_count(),
            g.wf(),
            replica_id@.len() == 32,
            data.wf(),
            data.contents().len() == nodes,
            forall|i: int| 0 <= i < data.contents().len() ==> is_fr(
                #[trigger] data.contents()[i],
            ),
            data.contents() == encode_prefix_spec(*g, replica_id@, start, layer as int,
                node as nat),
        decreases nodes - node,
    {
        if window < nodes - node {
            data.prefetch(node + window, layer % 2 == 1);
        }
        let mut ps: Vec<usize> = Vec::new();
        g.parents(node, layer, &mut ps);
        proof {
            lemma_parents_in_range(*g, node as int, layer as int);
        }
        let key = create_key(replica_id, &ps, data);
        let raw = data.get_node(node);
        let encoded = fr_add(&raw, &key);
        data.write_node(node, encoded);
        proof {
            assert(data.contents() =~= encode_prefix_spec(*g, replica_id@, start, layer as int,
                (node + 1) as nat));
        }
        node = node + 1;
    }
}

/// Produces the replica: encodes every layer in turn, parity alternating
/// from layer zero, over the graph's parent vectors. Succeeds exactly when
/// the identifier is one node wide, the store matches the graph, and every
/// stored block reads as a valid field element; on failure the store is
/// untouched.
pub fn r2(replica_id: &Vec<u8>, data: &mut NodeStore, g: &Graph, layers: usize) -> (res: Result<
    (),
    ReplicationError,
>)
    requires
        g.wf(),
        old(data).wf(),
    ensures
        res matches Ok(_) ==> final(data).contents() == replicate_spec(
            *g,
            replica_id@,
            old(data).contents(),
            layers as nat,
        ),
        res matches Err(_) ==> final(data).contents() == old(data).contents(),
        res == Ok::<(), ReplicationError>(()) <==> replica_id@.len() == 32 && old(
            data,
        ).contents().len() == g.node_count() && (forall|i: int|
            0 <= i < old(data).contents().len() ==> is_fr(#[trigger] old(data).contents()[i])),
        res == Err::<(), ReplicationError>(ReplicationError::BadReplicaId) <==> replica_id@.len()
            != 32,
        res == Err::<(), ReplicationError>(ReplicationError::WrongStoreSize) <==> replica_id@.len()
            == 32 && old(data).contents().len() != g.node_count(),
        res == Err::<(), ReplicationError>(ReplicationError::CorruptNodeData) <==> replica_id@.len()
            == 32 && old(data).contents().len() == g.node_count() && !(forall|i: int|
            0 <= i < old(data).contents().len() ==> is_fr(#[trigger] old(data).contents()[i])),
{
    if replica_id.len() != 32 {
        return Err(ReplicationError::BadReplicaId);
    }
    if data.len() != g.num_nodes() {
        return Err(ReplicationError::WrongStoreSize);
    }
    let nodes = data.len();
    let mut i: usize = 0;
    while i < nodes
        invariant
            i <= nodes,
            data.wf(),
            *data == *old(data),
            replica_id@.len() == 32,
            nodes == data.contents().len(),
            nodes == g.node_count(),
            forall|t: int| 0 <= t < i ==> is_fr(#[trigger] data.contents()[t]),
        decreases nodes - i,
    {
        let block = data.get_node(i);
        if !fr_valid(&block) {
            proof {
                assert(!is_fr(old(data).contents()[i as int]));
            }
            return Err(ReplicationError::CorruptNodeData);
        }
        i = i + 1;
    }
    proof {
        assert(forall|t: int|
            0 <= t < old(data).contents().len() ==> is_fr(#[trigger] old(data).contents()[t]));
    }
    let ghost orig = data.contents();
    let mut layer: usize = 0;
    while layer < layers
        invariant
            layer <= layers,
            g.wf(),
            replica_id@.len() == 32,
            data.wf(),
            orig == old(data).contents(),
            old(data).contents().len() == g.node_count(),
            forall|t: int| 0 <= t < old(data).contents().len() ==> is_fr(
                #[trigger] old(data).contents()[t],
            ),
            data.contents().len() == g.node_count(),
            forall|t: int| 0 <= t < data.contents().len() ==> is_fr(#[trigger] data.contents()[t]),
            data.contents() == replicate_spec(*g, replica_id@, orig, layer as nat),
        decreases layers - layer,
    {
        replicate_layer(g, replica_id, layer, data);
        layer = layer + 1;
    }
    Ok(())
}

} // verus!
