//! A snapshot gives back the index that it was taken of.

use crate::bytes::{le32, le64, lemma_u32_at, lemma_u64_at, u32_at, u64_at};
use crate::checksum::crc32;
use crate::distance::Metric;
use crate::hnsw::graph::{degree_bound, valid, Graph};
use crate::hnsw::index::{packed, unpacked, HnswConfig, MAX_ID};
use crate::hnsw::persist::{
    body_bytes, config_in, entry_word, graph_in, header_bytes, header_refusal, ids_at, ids_bytes,
    layers_at, layers_bytes, low32, lsn_in, metric_of, node_bytes, nodes_at, nodes_bytes,
    snapshot_bytes, tag_of, tail_refusal, Refusal, HEADER, LEVEL_LIMIT, MAGIC, M_LIMIT, VERSION,
};
use vstd::prelude::*;

verus! {

broadcast use {crate::bytes::lemma_le32_len, crate::bytes::lemma_le64_len};

/// The bytes of `part` lie in `file` from `pos` on.
#[verifier::opaque]
spec fn lies_at(file: Seq<u8>, pos: int, part: Seq<u8>) -> bool {
    &&& 0 <= pos
    &&& pos + part.len() <= file.len()
    &&& file.subrange(pos, pos + part.len()) == part
}

proof fn lemma_lies_apart(file: Seq<u8>, pos: int, a: Seq<u8>, b: Seq<u8>)
    requires
        lies_at(file, pos, a + b),
    ensures
        lies_at(file, pos, a),
        lies_at(file, pos + a.len(), b),
{
    reveal(lies_at);
    let whole = file.subrange(pos, pos + (a + b).len());
    assert(file.subrange(pos, pos + a.len()) =~= a) by {
        assert forall|i: int| 0 <= i < a.len() implies file[pos + i] == a[i] by {
            assert(whole[i] == (a + b)[i]);
        }
    }
    assert(file.subrange(pos + a.len(), pos + a.len() + b.len()) =~= b) by {
        assert forall|i: int| 0 <= i < b.len() implies file[pos + a.len() + i] == b[i] by {
            assert(whole[a.len() + i] == (a + b)[a.len() + i]);
        }
    }
}

proof fn lemma_lies_u32(file: Seq<u8>, pos: int, x: u32)
    requires
        lies_at(file, pos, le32(x)),
    ensures
        0 <= pos,
        pos + 4 <= file.len(),
        u32_at(file, pos) == x,
{
    reveal(lies_at);
    lemma_u32_at(file, pos, x);
}

proof fn lemma_lies_u64(file: Seq<u8>, pos: int, x: u64)
    requires
        lies_at(file, pos, le64(x)),
    ensures
        0 <= pos,
        pos + 8 <= file.len(),
        u64_at(file, pos) == x,
{
    reveal(lies_at);
    lemma_u64_at(file, pos, x);
}

proof fn lemma_ids_read_back(file: Seq<u8>, pos: int, list: Seq<u64>, count: u64)
    requires
        lies_at(file, pos, ids_bytes(list)),
        forall|i: int| 0 <= i < list.len() ==> #[trigger] list[i] < count,
    ensures
        ids_at(file, pos, list.len(), count) == Ok::<(Seq<u64>, int), Refusal>(
            (list, pos + ids_bytes(list).len()),
        ),
    decreases list.len(),
{
    if list.len() > 0 {
        let front = list.drop_last();
        let x = list.last();
        assert(list[list.len() - 1] < count);
        lemma_lies_apart(file, pos, ids_bytes(front), le64(x));
        lemma_ids_read_back(file, pos, front, count);
        lemma_lies_u64(file, pos + ids_bytes(front).len(), x);
        assert(front.push(x) =~= list);
    } else {
        assert(list =~= Seq::empty());
    }
}

proof fn lemma_layers_read_back(
    file: Seq<u8>,
    pos: int,
    layers: Seq<Seq<u64>>,
    count: u64,
    m: nat,
)
    requires
        lies_at(file, pos, layers_bytes(layers)),
        m <= M_LIMIT,
        forall|l: int|
            0 <= l < layers.len() ==> (#[trigger] layers[l]).len() <= degree_bound(m, l as nat),
        forall|l: int, j: int|
            0 <= l < layers.len() && 0 <= j < layers[l].len() ==> #[trigger] layers[l][j] < count,
    ensures
        layers_at(file, pos, layers.len(), count, m) == Ok::<(Seq<Seq<u64>>, int), Refusal>(
            (layers, pos + layers_bytes(layers).len()),
        ),
    decreases layers.len(),
{
    if layers.len() > 0 {
        let front = layers.drop_last();
        let list = layers.last();
        let last = layers.len() - 1;
        let len = low32(list.len());
        assert(layers[last].len() <= degree_bound(m, last as nat));
        lemma_lies_apart(file, pos, layers_bytes(front), le32(len) + ids_bytes(list));
        assert forall|l: int, j: int|
            0 <= l < front.len() && 0 <= j < front[l].len() implies #[trigger] front[l][j]
            < count by {
            assert(layers[l][j] < count);
        }
        lemma_layers_read_back(file, pos, front, count, m);
        let at = pos + layers_bytes(front).len();
        lemma_lies_apart(file, at, le32(len), ids_bytes(list));
        lemma_lies_u32(file, at, len);
        assert forall|i: int| 0 <= i < list.len() implies #[trigger] list[i] < count by {
            assert(layers[last][i] < count);
        }
        lemma_ids_read_back(file, at + 4, list, count);
        assert(front.push(list) =~= layers);
    } else {
        assert(layers =~= Seq::empty());
    }
}

/// A node that a snapshot can hold.
spec fn storable(node: Seq<Seq<u64>>, count: u64, m: nat) -> bool {
    &&& 1 <= node.len() <= LEVEL_LIMIT + 1
    &&& forall|l: int|
        0 <= l < node.len() ==> (#[trigger] node[l]).len() <= degree_bound(m, l as nat)
    &&& forall|l: int, j: int|
        0 <= l < node.len() && 0 <= j < node[l].len() ==> #[trigger] node[l][j] < count
}

proof fn lemma_nodes_read_back(
    file: Seq<u8>,
    pos: int,
    nodes: Seq<Seq<Seq<u64>>>,
    count: u64,
    m: nat,
)
    requires
        lies_at(file, pos, nodes_bytes(nodes)),
        m <= M_LIMIT,
        forall|i: int| 0 <= i < nodes.len() ==> storable(#[trigger] nodes[i], count, m),
    ensures
        nodes_at(file, pos, nodes.len(), count, m) == Ok::<(Seq<Seq<Seq<u64>>>, int), Refusal>(
            (nodes, pos + nodes_bytes(nodes).len()),
        ),
        nodes_bytes(nodes).len() >= 8 * nodes.len(),
    decreases nodes.len(),
{
    if nodes.len() > 0 {
        let front = nodes.drop_last();
        let node = nodes.last();
        assert(storable(nodes[nodes.len() - 1], count, m));
        let level = low32((node.len() - 1) as nat);
        lemma_lies_apart(file, pos, nodes_bytes(front), node_bytes(node));
        lemma_nodes_read_back(file, pos, front, count, m);
        let at = pos + nodes_bytes(front).len();
        lemma_lies_apart(file, at, le32(level), layers_bytes(node));
        lemma_lies_u32(file, at, level);
        lemma_layers_read_back(file, at + 4, node, count, m);
        assert(layers_bytes(node).len() >= 4);
        assert(front.push(node) =~= nodes);
    } else {
        assert(nodes =~= Seq::empty());
    }
}

proof fn lemma_header_reads_back(file: Seq<u8>, config: HnswConfig, wal_lsn: u64, g: Graph)
    requires
        lies_at(file, 0, header_bytes(config, wal_lsn, g)),
        config.m <= u32::MAX,
        config.ef_construction <= u32::MAX,
        g.nodes.len() <= u64::MAX,
    ensures
        u32_at(file, 0) == MAGIC,
        u32_at(file, 4) == VERSION,
        u32_at(file, 8) == config.m,
        u32_at(file, 12) == config.ef_construction,
        metric_of(file[16]) == Some(config.metric),
        u64_at(file, 17) == wal_lsn,
        u64_at(file, 25) == g.nodes.len(),
        u64_at(file, 33) == entry_word(g.entry),
        header_bytes(config, wal_lsn, g).len() == HEADER,
        file.len() >= HEADER,
{
    let m = low32(config.m as nat);
    let ef = low32(config.ef_construction as nat);
    let tag = seq![tag_of(config.metric)];
    let count = g.nodes.len() as u64;
    let word = entry_word(g.entry);
    let a = le32(MAGIC);
    let b = a + le32(VERSION);
    let c = b + le32(m);
    let d = c + le32(ef);
    let e = d + tag;
    let f = e + le64(wal_lsn);
    let h = f + le64(count);
    lemma_lies_apart(file, 0, h, le64(word));
    lemma_lies_apart(file, 0, f, le64(count));
    lemma_lies_apart(file, 0, e, le64(wal_lsn));
    lemma_lies_apart(file, 0, d, tag);
    lemma_lies_apart(file, 0, c, le32(ef));
    lemma_lies_apart(file, 0, b, le32(m));
    lemma_lies_apart(file, 0, a, le32(VERSION));
    lemma_lies_u32(file, 0, MAGIC);
    lemma_lies_u32(file, 4, VERSION);
    lemma_lies_u32(file, 8, m);
    lemma_lies_u32(file, 12, ef);
    reveal(lies_at);
    assert(file.subrange(16, 17)[0] == tag[0]);
    lemma_lies_u64(file, 17, wal_lsn);
    lemma_lies_u64(file, 25, count);
    lemma_lies_u64(file, 33, word);
}

/// Loading a snapshot gives back the graph, the configuration and the log
/// position that it was taken with. Loading sets limits of its own, to `m`
/// and to the levels; within them nothing is lost.
pub proof fn law_snapshot_round_trip(config: HnswConfig, wal_lsn: u64, g: Graph)
    requires
        valid(g),
        g.nodes.len() <= MAX_ID,
        2 <= config.m <= M_LIMIT,
        config.ef_construction <= u32::MAX,
        forall|i: int|
            0 <= i < g.nodes.len() ==> (#[trigger] g.nodes[i]).len() <= LEVEL_LIMIT + 1,
        forall|i: int, layer: int|
            0 <= i < g.nodes.len() && 0 <= layer < g.nodes[i].len() ==> (
            #[trigger] g.nodes[i][layer]).len() <= degree_bound(config.m as nat, layer as nat),
    ensures
        graph_in(snapshot_bytes(config, wal_lsn, g)) == Ok::<Graph, Refusal>(g),
        config_in(snapshot_bytes(config, wal_lsn, g)) == config,
        lsn_in(snapshot_bytes(config, wal_lsn, g)) == wal_lsn,
{
    let file = snapshot_bytes(config, wal_lsn, g);
    let header = header_bytes(config, wal_lsn, g);
    let nodes = nodes_bytes(g.nodes);
    let body = body_bytes(config, wal_lsn, g);
    let sum = crc32(body);
    let count = g.nodes.len() as u64;
    let m = config.m as nat;
    assert(lies_at(file, 0, body + le32(sum))) by {
        reveal(lies_at);
        assert(file.subrange(0, file.len() as int) =~= file);
    }
    lemma_lies_apart(file, 0, body, le32(sum));
    lemma_lies_apart(file, 0, header, nodes);
    lemma_header_reads_back(file, config, wal_lsn, g);
    lemma_lies_u32(file, body.len() as int, sum);
    assert(file.take(file.len() - 4) =~= body);
    assert forall|i: int| 0 <= i < g.nodes.len() implies storable(
        #[trigger] g.nodes[i],
        count,
        m,
    ) by {
        let node = g.nodes[i];
        assert forall|l: int| 0 <= l < node.len() implies (#[trigger] node[l]).len()
            <= degree_bound(m, l as nat) by {
            assert(g.nodes[i][l].len() <= degree_bound(m, l as nat));
        }
        assert forall|l: int, j: int| 0 <= l < node.len() && 0 <= j < node[l].len() implies
            #[trigger] node[l][j] < count by {
            assert(g.nodes[i][l][j] < g.nodes.len());
        }
    }
    lemma_nodes_read_back(file, HEADER as int, g.nodes, count, m);
    assert(count <= file.len() / 8);
    assert(header_refusal(file) is None);
    let end = HEADER + nodes.len();
    assert(end == body.len());
    assert(file.take(end as int) =~= body);
    match g.entry {
        None => {},
        Some((id, level)) => {
            lemma_unpack_packed(id, level);
        },
    }
    assert(unpacked(entry_word(g.entry)) == g.entry);
    assert(tail_refusal(file, g.nodes, end as int) is None);
}

proof fn lemma_unpack_packed(id: u64, level: nat)
    requires
        id < MAX_ID,
        level <= 255,
    ensures
        unpacked(packed(id, level)) == Some((id, level)),
{
    let word = level * 0x100_0000_0000_0000 + id;
    assert(word <= 255 * 0x100_0000_0000_0000 + 0xFF_FFFF_FFFF_FFFE);
    assert(packed(id, level) == word);
}

/// Where things stand in a snapshot: behind four bytes that say what it is and four
/// for the version come the settings, the log position, the number of nodes and the
/// entry point, all of them little-endian, and behind these the level of the first
/// node.
pub proof fn law_snapshots_are_laid_out_like_this(
    config: HnswConfig,
    wal_lsn: u64,
    g: Graph,
)
    requires
        config.m <= u32::MAX,
        config.ef_construction <= u32::MAX,
        g.nodes.len() <= u64::MAX,
    ensures
        ({
            let file = snapshot_bytes(config, wal_lsn, g);
            &&& u32_at(file, 0) == MAGIC
            &&& u32_at(file, 4) == VERSION
            &&& u32_at(file, 8) == config.m
            &&& u32_at(file, 12) == config.ef_construction
            &&& file[16] == (match config.metric {
                Metric::L2 => 0u8,
                Metric::Dot => 1u8,
                Metric::Cosine => 2u8,
            })
            &&& u64_at(file, 17) == wal_lsn
            &&& u64_at(file, 25) == g.nodes.len()
            &&& g.entry is None ==> u64_at(file, 33) == u64::MAX
            &&& g.entry matches Some((id, level)) ==> id <= MAX_ID && level < 256 ==> u64_at(
                file,
                33,
            ) == level * 0x100_0000_0000_0000 + id
            &&& g.nodes.len() > 0 && 1 <= g.nodes[0].len() <= u32::MAX ==> u32_at(file, 41)
                == g.nodes[0].len() - 1
        }),
{
    let file = snapshot_bytes(config, wal_lsn, g);
    let header = header_bytes(config, wal_lsn, g);
    let nodes = nodes_bytes(g.nodes);
    let body = body_bytes(config, wal_lsn, g);
    let sum = crc32(body);
    assert(lies_at(file, 0, body + le32(sum))) by {
        reveal(lies_at);
        assert(file.subrange(0, file.len() as int) =~= file);
    }
    lemma_lies_apart(file, 0, body, le32(sum));
    lemma_lies_apart(file, 0, header, nodes);
    lemma_header_reads_back(file, config, wal_lsn, g);
    if g.nodes.len() > 0 && 1 <= g.nodes[0].len() <= u32::MAX {
        lemma_first_node_in_front(g.nodes);
        let rest = nodes.subrange(4, nodes.len() as int);
        let level = low32((g.nodes[0].len() - 1) as nat);
        assert(nodes =~= le32(level) + rest);
        lemma_lies_apart(file, 41, le32(level), rest);
        lemma_lies_u32(file, 41, level);
    }
}

proof fn lemma_first_node_in_front(nodes: Seq<Seq<Seq<u64>>>)
    requires
        nodes.len() > 0,
    ensures
        nodes_bytes(nodes).len() >= 4,
        nodes_bytes(nodes).subrange(0, 4) == le32(low32((nodes[0].len() - 1) as nat)),
    decreases nodes.len(),
{
    let first = le32(low32((nodes[0].len() - 1) as nat));
    if nodes.len() == 1 {
        assert(nodes.drop_last() =~= Seq::empty());
        assert(nodes_bytes(nodes.drop_last()) =~= Seq::empty());
        assert(nodes_bytes(nodes).subrange(0, 4) =~= first);
    } else {
        lemma_first_node_in_front(nodes.drop_last());
        let front = nodes_bytes(nodes.drop_last());
        assert(nodes_bytes(nodes).subrange(0, 4) =~= front.subrange(0, 4));
    }
}

} // verus!
