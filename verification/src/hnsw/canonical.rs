//! A snapshot holds nothing but the index that it was taken of.

use crate::bytes::{lemma_le32_of, lemma_le64_of, u32_at, u64_at};
use crate::checksum::sealed;
use crate::hnsw::graph::{valid, Graph};
use crate::hnsw::index::unpacked;
use crate::hnsw::persist::{
    config_in, entry_word, graph_in, header_bytes, header_refusal, ids_at, ids_bytes, layers_at,
    layers_bytes, low32, lsn_in, node_at, node_bytes, nodes_at, nodes_bytes, snapshot_bytes, tag_of,
    HEADER, LEVEL_LIMIT, M_LIMIT,
};
use vstd::prelude::*;

verus! {

broadcast use {crate::bytes::lemma_le32_len, crate::bytes::lemma_le64_len};

proof fn lemma_split(file: Seq<u8>, a: int, b: int, c: int)
    requires
        0 <= a <= b <= c <= file.len(),
    ensures
        file.subrange(a, c) == file.subrange(a, b) + file.subrange(b, c),
{
    assert(file.subrange(a, c) =~= file.subrange(a, b) + file.subrange(b, c));
}

proof fn lemma_ids_are_canonical(file: Seq<u8>, pos: int, n: nat, count: u64)
    requires
        0 <= pos <= file.len(),
        ids_at(file, pos, n, count) is Ok,
    ensures
        ({
            let (list, end) = ids_at(file, pos, n, count)->Ok_0;
            &&& list.len() == n
            &&& pos <= end <= file.len()
            &&& file.subrange(pos, end) == ids_bytes(list)
            &&& forall|j: int| 0 <= j < list.len() ==> #[trigger] list[j] < count
        }),
    decreases n,
{
    let (list, end) = ids_at(file, pos, n, count)->Ok_0;
    if n == 0 {
        assert(file.subrange(pos, end) =~= ids_bytes(list));
    } else {
        lemma_ids_are_canonical(file, pos, (n - 1) as nat, count);
        let (front, at) = ids_at(file, pos, (n - 1) as nat, count)->Ok_0;
        lemma_le64_of(file, at);
        lemma_split(file, pos, at, end);
        assert(list.drop_last() =~= front);
    }
}

/// The links of a node are within the bounds.
spec fn within(layers: Seq<Seq<u64>>, count: u64, m: nat) -> bool {
    forall|l: int|
        0 <= l < layers.len() ==> (#[trigger] layers[l]).len() <= (if l == 0 {
            2 * m
        } else {
            m
        }) && forall|j: int| 0 <= j < layers[l].len() ==> #[trigger] layers[l][j] < count
}

proof fn lemma_layers_are_canonical(file: Seq<u8>, pos: int, n: nat, count: u64, m: nat)
    requires
        0 <= pos <= file.len(),
        layers_at(file, pos, n, count, m) is Ok,
    ensures
        ({
            let (layers, end) = layers_at(file, pos, n, count, m)->Ok_0;
            &&& layers.len() == n
            &&& pos <= end <= file.len()
            &&& file.subrange(pos, end) == layers_bytes(layers)
            &&& within(layers, count, m)
        }),
    decreases n,
{
    let (layers, end) = layers_at(file, pos, n, count, m)->Ok_0;
    if n == 0 {
        assert(file.subrange(pos, end) =~= layers_bytes(layers));
    } else {
        lemma_layers_are_canonical(file, pos, (n - 1) as nat, count, m);
        let (front, at) = layers_at(file, pos, (n - 1) as nat, count, m)->Ok_0;
        let degree = u32_at(file, at) as nat;
        lemma_ids_are_canonical(file, at + 4, degree, count);
        let (list, to) = ids_at(file, at + 4, degree, count)->Ok_0;
        lemma_le32_of(file, at);
        lemma_split(file, at, at + 4, end);
        lemma_split(file, pos, at, end);
        assert(layers.drop_last() =~= front);
        assert(layers.last() == list);
        assert(low32(list.len()) == u32_at(file, at));
    }
}

proof fn lemma_node_is_canonical(file: Seq<u8>, pos: int, count: u64, m: nat)
    requires
        0 <= pos <= file.len(),
        node_at(file, pos, count, m) is Ok,
    ensures
        ({
            let (node, end) = node_at(file, pos, count, m)->Ok_0;
            &&& 1 <= node.len() <= LEVEL_LIMIT + 1
            &&& pos <= end <= file.len()
            &&& file.subrange(pos, end) == node_bytes(node)
            &&& within(node, count, m)
        }),
{
    let (node, end) = node_at(file, pos, count, m)->Ok_0;
    lemma_layers_are_canonical(file, pos + 4, (u32_at(file, pos) + 1) as nat, count, m);
    lemma_le32_of(file, pos);
    lemma_split(file, pos, pos + 4, end);
    assert(low32((node.len() - 1) as nat) == u32_at(file, pos));
}

proof fn lemma_nodes_are_canonical(file: Seq<u8>, pos: int, n: nat, count: u64, m: nat)
    requires
        0 <= pos <= file.len(),
        nodes_at(file, pos, n, count, m) is Ok,
    ensures
        ({
            let (nodes, end) = nodes_at(file, pos, n, count, m)->Ok_0;
            &&& nodes.len() == n
            &&& pos <= end <= file.len()
            &&& file.subrange(pos, end) == nodes_bytes(nodes)
            &&& forall|i: int|
                0 <= i < n ==> 1 <= (#[trigger] nodes[i]).len() <= LEVEL_LIMIT + 1 && within(
                    nodes[i],
                    count,
                    m,
                )
        }),
    decreases n,
{
    let (nodes, end) = nodes_at(file, pos, n, count, m)->Ok_0;
    if n == 0 {
        assert(file.subrange(pos, end) =~= nodes_bytes(nodes));
    } else {
        lemma_nodes_are_canonical(file, pos, (n - 1) as nat, count, m);
        let (front, at) = nodes_at(file, pos, (n - 1) as nat, count, m)->Ok_0;
        lemma_node_is_canonical(file, at, count, m);
        lemma_split(file, pos, at, end);
        assert(nodes.drop_last() =~= front);
    }
}

proof fn lemma_header_is_canonical(file: Seq<u8>, g: Graph)
    requires
        header_refusal(file) is None,
        g.nodes.len() == u64_at(file, 25),
        g.entry == unpacked(u64_at(file, 33)),
    ensures
        file.len() >= HEADER,
        file.subrange(0, HEADER as int) == header_bytes(config_in(file), lsn_in(file), g),
{
    let config = config_in(file);
    lemma_le32_of(file, 0);
    lemma_le32_of(file, 4);
    lemma_le32_of(file, 8);
    lemma_le32_of(file, 12);
    lemma_le64_of(file, 17);
    lemma_le64_of(file, 25);
    lemma_le64_of(file, 33);
    assert(low32(config.m as nat) == u32_at(file, 8));
    assert(low32(config.ef_construction as nat) == u32_at(file, 12));
    assert(tag_of(config.metric) == file[16]);
    assert(entry_word(g.entry) == u64_at(file, 33));
    lemma_split(file, 0, 4, 8);
    lemma_split(file, 0, 8, 12);
    lemma_split(file, 0, 12, 16);
    lemma_split(file, 0, 16, 17);
    lemma_split(file, 0, 17, 25);
    lemma_split(file, 0, 25, 33);
    lemma_split(file, 0, 33, 41);
    assert(file.subrange(16, 17) =~= seq![file[16]]);
}

/// A snapshot that is accepted is byte for byte the one that saving its index
/// writes, so nothing that saving does not write is accepted. The index is valid
/// and within the bounds on levels and links, and the file ends in its checksum.
pub proof fn law_an_accepted_snapshot_is_that_of_its_index(file: Seq<u8>)
    requires
        graph_in(file) is Ok,
    ensures
        ({
            let g = graph_in(file)->Ok_0;
            let config = config_in(file);
            &&& file == snapshot_bytes(config, lsn_in(file), g)
            &&& sealed(file)
            &&& valid(g)
            &&& 2 <= config.m <= M_LIMIT
            &&& forall|i: int|
                0 <= i < g.nodes.len() ==> (#[trigger] g.nodes[i]).len() <= LEVEL_LIMIT + 1
            &&& forall|i: int, l: int|
                0 <= i < g.nodes.len() && 0 <= l < g.nodes[i].len() ==> (
                #[trigger] g.nodes[i][l]).len() <= (if l == 0 {
                    2 * config.m as int
                } else {
                    config.m as int
                })
        }),
{
    let g = graph_in(file)->Ok_0;
    let count = u64_at(file, 25);
    let m = u32_at(file, 8) as nat;
    lemma_nodes_are_canonical(file, HEADER as int, count as nat, count, m);
    let (nodes, end) = nodes_at(file, HEADER as int, count as nat, count, m)->Ok_0;
    assert(g.nodes == nodes);
    lemma_header_is_canonical(file, g);
    lemma_split(file, 0, HEADER as int, end);
    lemma_le32_of(file, end);
    assert(file.take(end) =~= file.subrange(0, end));
    assert(file =~= file.subrange(0, end) + file.subrange(end, end + 4));
    assert forall|i: int, l: int, j: int|
        0 <= i < g.nodes.len() && 0 <= l < g.nodes[i].len() && 0 <= j
            < g.nodes[i][l].len() implies #[trigger] g.nodes[i][l][j] < g.nodes.len() by {
        let node = nodes[i];
        assert(within(node, count, m));
        assert(node[l][j] < count);
    }
    assert forall|i: int, l: int| 0 <= i < g.nodes.len() && 0 <= l < g.nodes[i].len() implies (
    #[trigger] g.nodes[i][l]).len() <= (if l == 0 {
        2 * m
    } else {
        m
    }) by {
        let node = nodes[i];
        assert(within(node, count, m));
        assert(node[l].len() <= (if l == 0 {
            2 * m
        } else {
            m
        }));
    }
}

} // verus!
