//! Snapshots of the index.
//!
//! Format, little-endian throughout:
//!   magic u32, version u32, m u32, ef_construction u32, metric u8,
//!   wal_lsn u64, count u64, entry u64;
//!   for every node: level u32, then for every layer: length u32, ids u64;
//!   crc32 u32 over everything before it.

use crate::bytes::{le32, le64, put_u32, put_u64, read_u32, read_u64, u32_at, u64_at};
use crate::checksum::{
    checksum, crc32, lemma_damage_shows, lemma_sealed, one_byte_off, sealed,
};
use crate::distance::Metric;
use crate::doubling::MAX_SEGMENTS;
use crate::error::{corrupt, is_corrupt, Error};
use crate::hnsw::graph::{degree_bound, valid, Graph};
use crate::hnsw::index::{
    packed, unpack_entry, unpacked, Hnsw, HnswConfig, Node, ENTRY_NONE, MAX_LEVEL,
};
use crate::hnsw::segvec::SegVec;
use crate::io::{steps, Target};
use vstd::prelude::*;

verus! {

broadcast use {crate::bytes::lemma_le32_len, crate::bytes::lemma_le64_len};

/// "VKSN".
pub const MAGIC: u32 = 0x564B_534E;

pub const VERSION: u32 = 1;

/// Bytes before the first node.
pub const HEADER: usize = 41;

/// A snapshot has no node with a higher level.
pub const LEVEL_LIMIT: usize = 63;

/// A snapshot is of no index with a larger `m`.
pub const M_LIMIT: usize = 4096;

/// An index has no more nodes.
pub const MAX_NODES: u64 = 0x3_FFFF_FFFF_FC00;

/// The metric in one byte.
pub open spec fn tag_of(metric: Metric) -> u8 {
    match metric {
        Metric::L2 => 0,
        Metric::Dot => 1,
        Metric::Cosine => 2,
    }
}

/// The metric that a byte stands for.
pub open spec fn metric_of(tag: u8) -> Option<Metric> {
    if tag == 0 {
        Some(Metric::L2)
    } else if tag == 1 {
        Some(Metric::Dot)
    } else if tag == 2 {
        Some(Metric::Cosine)
    } else {
        None
    }
}

pub fn metric_tag(metric: Metric) -> (tag: u8)
    ensures
        tag == tag_of(metric),
        metric_of(tag) == Some(metric),
{
    match metric {
        Metric::L2 => 0,
        Metric::Dot => 1,
        Metric::Cosine => 2,
    }
}

pub fn metric_from(tag: u8) -> (r: Result<Metric, Error>)
    ensures
        match metric_of(tag) {
            Some(metric) => r == Ok::<Metric, Error>(metric),
            None => r matches Err(e) && is_corrupt(e, "unknown metric tag"@),
        },
{
    if tag == 0 {
        Ok(Metric::L2)
    } else if tag == 1 {
        Ok(Metric::Dot)
    } else if tag == 2 {
        Ok(Metric::Cosine)
    } else {
        Err(corrupt("unknown metric tag"))
    }
}

/// The low 32 bits.
pub open spec fn low32(x: nat) -> u32 {
    (x % 0x1_0000_0000) as u32
}

/// The bytes of some ids.
pub open spec fn ids_bytes(list: Seq<u64>) -> Seq<u8>
    decreases list.len(),
{
    if list.len() == 0 {
        Seq::empty()
    } else {
        ids_bytes(list.drop_last()) + le64(list.last())
    }
}

/// The bytes of the links on some layers.
pub open spec fn layers_bytes(layers: Seq<Seq<u64>>) -> Seq<u8>
    decreases layers.len(),
{
    if layers.len() == 0 {
        Seq::empty()
    } else {
        layers_bytes(layers.drop_last()) + (le32(low32(layers.last().len())) + ids_bytes(
            layers.last(),
        ))
    }
}

/// The bytes of a node.
pub open spec fn node_bytes(node: Seq<Seq<u64>>) -> Seq<u8> {
    le32(low32((node.len() - 1) as nat)) + layers_bytes(node)
}

/// The bytes of some nodes.
pub open spec fn nodes_bytes(nodes: Seq<Seq<Seq<u64>>>) -> Seq<u8>
    decreases nodes.len(),
{
    if nodes.len() == 0 {
        Seq::empty()
    } else {
        nodes_bytes(nodes.drop_last()) + node_bytes(nodes.last())
    }
}

/// The entry point in one word.
pub open spec fn entry_word(entry: Option<(u64, nat)>) -> u64 {
    match entry {
        None => ENTRY_NONE,
        Some((id, level)) => packed(id, level),
    }
}

/// What comes before the nodes.
pub open spec fn header_bytes(config: HnswConfig, wal_lsn: u64, g: Graph) -> Seq<u8> {
    le32(MAGIC) + le32(VERSION) + le32(low32(config.m as nat)) + le32(
        low32(config.ef_construction as nat),
    ) + seq![tag_of(config.metric)] + le64(wal_lsn) + le64(g.nodes.len() as u64) + le64(
        entry_word(g.entry),
    )
}

/// Everything but the checksum.
pub open spec fn body_bytes(config: HnswConfig, wal_lsn: u64, g: Graph) -> Seq<u8> {
    header_bytes(config, wal_lsn, g) + nodes_bytes(g.nodes)
}

/// A whole snapshot.
pub open spec fn snapshot_bytes(config: HnswConfig, wal_lsn: u64, g: Graph) -> Seq<u8> {
    let body = body_bytes(config, wal_lsn, g);
    body + le32(crc32(body))
}

/// Why a snapshot is refused.
pub ghost enum Refusal {
    /// It ends too early.
    Short,
    /// Something in it is wrong.
    Bad(Seq<char>),
}

/// The error that reports a refusal.
pub open spec fn reports(e: Error, why: Refusal) -> bool {
    match why {
        Refusal::Short => e matches Error::Io(s) && s@ == "failed to fill whole buffer"@,
        Refusal::Bad(text) => is_corrupt(e, text),
    }
}

/// `n` ids from `pos` on, each below `count`, and where they end.
pub open spec fn ids_at(file: Seq<u8>, pos: int, n: nat, count: u64) -> Result<
    (Seq<u64>, int),
    Refusal,
>
    decreases n,
{
    if n == 0 {
        Ok((Seq::empty(), pos))
    } else {
        match ids_at(file, pos, (n - 1) as nat, count) {
            Err(why) => Err(why),
            Ok((list, at)) => if at + 8 > file.len() {
                Err(Refusal::Short)
            } else if u64_at(file, at) >= count {
                Err(Refusal::Bad("snapshot: link out of range"@))
            } else {
                Ok((list.push(u64_at(file, at)), at + 8))
            },
        }
    }
}

/// The links on the first `n` layers from `pos` on, and where they end.
pub open spec fn layers_at(file: Seq<u8>, pos: int, n: nat, count: u64, m: nat) -> Result<
    (Seq<Seq<u64>>, int),
    Refusal,
>
    decreases n,
{
    if n == 0 {
        Ok((Seq::empty(), pos))
    } else {
        match layers_at(file, pos, (n - 1) as nat, count, m) {
            Err(why) => Err(why),
            Ok((layers, at)) => if at + 4 > file.len() {
                Err(Refusal::Short)
            } else if u32_at(file, at) > degree_bound(m, (n - 1) as nat) {
                Err(Refusal::Bad("snapshot: absurd degree"@))
            } else {
                match ids_at(file, at + 4, u32_at(file, at) as nat, count) {
                    Err(why) => Err(why),
                    Ok((list, end)) => Ok((layers.push(list), end)),
                }
            },
        }
    }
}

/// The node at `pos`, and where it ends.
pub open spec fn node_at(file: Seq<u8>, pos: int, count: u64, m: nat) -> Result<
    (Seq<Seq<u64>>, int),
    Refusal,
> {
    if pos + 4 > file.len() {
        Err(Refusal::Short)
    } else if u32_at(file, pos) > LEVEL_LIMIT {
        Err(Refusal::Bad("snapshot: absurd level"@))
    } else {
        layers_at(file, pos + 4, (u32_at(file, pos) + 1) as nat, count, m)
    }
}

/// The first `n` nodes from `pos` on, and where they end.
pub open spec fn nodes_at(file: Seq<u8>, pos: int, n: nat, count: u64, m: nat) -> Result<
    (Seq<Seq<Seq<u64>>>, int),
    Refusal,
>
    decreases n,
{
    if n == 0 {
        Ok((Seq::empty(), pos))
    } else {
        match nodes_at(file, pos, (n - 1) as nat, count, m) {
            Err(why) => Err(why),
            Ok((nodes, at)) => match node_at(file, at, count, m) {
                Err(why) => Err(why),
                Ok((node, end)) => Ok((nodes.push(node), end)),
            },
        }
    }
}

/// What is wrong before the first node.
pub open spec fn header_refusal(file: Seq<u8>) -> Option<Refusal> {
    if file.len() < 4 {
        Some(Refusal::Bad("snapshot: truncated"@))
    } else if u32_at(file, file.len() - 4) != crc32(file.take(file.len() - 4)) {
        Some(Refusal::Bad("snapshot: checksum mismatch"@))
    } else if u32_at(file, 0) != MAGIC {
        Some(Refusal::Bad("snapshot: bad magic"@))
    } else if file.len() < 8 {
        Some(Refusal::Short)
    } else if u32_at(file, 4) != VERSION {
        Some(Refusal::Bad("snapshot: unsupported version"@))
    } else if file.len() < 17 {
        Some(Refusal::Short)
    } else if metric_of(file[16]) is None {
        Some(Refusal::Bad("unknown metric tag"@))
    } else if file.len() < HEADER {
        Some(Refusal::Short)
    } else if !(2 <= u32_at(file, 8) <= M_LIMIT) {
        Some(Refusal::Bad("snapshot: HNSW M out of range"@))
    } else if u64_at(file, 25) > file.len() / 8 {
        Some(Refusal::Bad("snapshot: impossible node count"@))
    } else {
        None
    }
}

/// What is wrong behind the last node, which ends at `end`.
pub open spec fn tail_refusal(file: Seq<u8>, nodes: Seq<Seq<Seq<u64>>>, end: int) -> Option<
    Refusal,
> {
    if end + 4 > file.len() {
        Some(Refusal::Short)
    } else if u32_at(file, end) != crc32(file.take(end)) {
        Some(Refusal::Bad("snapshot: checksum mismatch"@))
    } else if end + 4 < file.len() {
        Some(Refusal::Bad("snapshot: trailing bytes"@))
    } else {
        match unpacked(u64_at(file, 33)) {
            None => None,
            Some((id, level)) => if id >= nodes.len() {
                Some(Refusal::Bad("snapshot: entry out of range"@))
            } else if level != nodes[id as int].len() - 1 {
                Some(Refusal::Bad("snapshot: entry level mismatch"@))
            } else {
                None
            },
        }
    }
}

/// The graph that a snapshot holds, or why it is refused.
pub open spec fn graph_in(file: Seq<u8>) -> Result<Graph, Refusal> {
    match header_refusal(file) {
        Some(why) => Err(why),
        None => match nodes_at(
            file,
            HEADER as int,
            u64_at(file, 25) as nat,
            u64_at(file, 25),
            u32_at(file, 8) as nat,
        ) {
            Err(why) => Err(why),
            Ok((nodes, end)) => match tail_refusal(file, nodes, end) {
                Some(why) => Err(why),
                None => Ok(Graph { nodes, entry: unpacked(u64_at(file, 33)) }),
            },
        },
    }
}

/// The configuration that a snapshot holds.
pub open spec fn config_in(file: Seq<u8>) -> HnswConfig {
    HnswConfig {
        m: u32_at(file, 8) as usize,
        ef_construction: u32_at(file, 12) as usize,
        metric: metric_of(file[16])->0,
    }
}

/// The log position that replay resumes from.
pub open spec fn lsn_in(file: Seq<u8>) -> u64 {
    u64_at(file, 17)
}

/// A word is the one that its entry point is packed into.
proof fn lemma_entry_word(word: u64)
    ensures
        entry_word(unpacked(word)) == word,
{
}

fn low_word(x: usize) -> (w: u32)
    ensures
        w == low32(x as nat),
{
    (x as u64 % 0x1_0000_0000) as u32
}

fn put_ids(out: &mut Vec<u8>, list: &Vec<u64>)
    ensures
        final(out)@ == old(out)@ + ids_bytes(list@),
{
    let mut i: usize = 0;
    assert(list@.take(0) =~= Seq::empty());
    assert(old(out)@ + ids_bytes(list@.take(0)) =~= old(out)@);
    while i < list.len()
        invariant
            i <= list@.len(),
            out@ == old(out)@ + ids_bytes(list@.take(i as int)),
        decreases list@.len() - i,
    {
        put_u64(out, list[i]);
        proof {
            assert(list@.take(i + 1).drop_last() =~= list@.take(i as int));
            assert(out@ =~= old(out)@ + ids_bytes(list@.take(i + 1)));
        }
        i = i + 1;
    }
    assert(list@.take(i as int) =~= list@);
}

fn put_node(out: &mut Vec<u8>, node: &Node)
    requires
        1 <= node@.len() <= MAX_LEVEL + 1,
    ensures
        final(out)@ == old(out)@ + node_bytes(node@),
{
    let level: usize = node.level();
    put_u32(out, low_word(level));
    let ghost start = out@;
    let mut layer: usize = 0;
    assert(node@.take(0) =~= Seq::empty());
    assert(start + layers_bytes(node@.take(0)) =~= start);
    while layer <= level
        invariant
            layer <= level + 1,
            level <= MAX_LEVEL,
            level + 1 == node@.len(),
            out@ == start + layers_bytes(node@.take(layer as int)),
        decreases level + 1 - layer,
    {
        let list: &Vec<u64> = node.layer(layer);
        put_u32(out, low_word(list.len()));
        put_ids(out, list);
        proof {
            let part = node@.take(layer + 1);
            assert(part.drop_last() =~= node@.take(layer as int));
            assert(part.last() == list@);
            assert(out@ =~= start + layers_bytes(part));
        }
        layer = layer + 1;
    }
    assert(node@.take(layer as int) =~= node@);
    assert(out@ =~= old(out)@ + node_bytes(node@));
}

impl Hnsw {
    fn put_header(&self, out: &mut Vec<u8>, wal_lsn: u64)
        requires
            self.wf(),
        ensures
            final(out)@ == old(out)@ + header_bytes(self.spec_config(), wal_lsn, self.graph()),
    {
        let word: u64 = self.entry_in_a_word();
        proof {
            lemma_entry_word(word);
        }
        put_u32(out, MAGIC);
        put_u32(out, VERSION);
        put_u32(out, low_word(self.config().m));
        put_u32(out, low_word(self.config().ef_construction));
        out.push(metric_tag(self.config().metric));
        put_u64(out, wal_lsn);
        put_u64(out, self.len() as u64);
        put_u64(out, word);
        assert(out@ =~= old(out)@ + header_bytes(self.spec_config(), wal_lsn, self.graph()));
    }

    /// The bytes of a snapshot.
    pub fn snapshot(&self, wal_lsn: u64) -> (bytes: Vec<u8>)
        requires
            self.wf(),
        ensures
            bytes@ == snapshot_bytes(self.spec_config(), wal_lsn, self.graph()),
            sealed(bytes@),
    {
        let mut out: Vec<u8> = Vec::new();
        self.put_header(&mut out, wal_lsn);
        let ghost g = self.graph();
        let ghost header = header_bytes(self.spec_config(), wal_lsn, g);
        let n: u64 = self.len() as u64;
        let mut id: u64 = 0;
        proof {
            assert(out@ =~= header);
            assert(g.nodes.take(0) =~= Seq::empty());
            assert(header + nodes_bytes(g.nodes.take(0)) =~= header);
            self.lemma_sizes();
        }
        while id < n
            invariant
                self.wf(),
                g == self.graph(),
                valid(g),
                n == g.nodes.len(),
                id <= n,
                out@ == header + nodes_bytes(g.nodes.take(id as int)),
            decreases n - id,
        {
            let node: &Node = self.node(id);
            proof {
                self.lemma_sizes();
            }
            put_node(&mut out, node);
            proof {
                assert(g.nodes.take(id + 1).drop_last() =~= g.nodes.take(id as int));
                assert(out@ =~= header + nodes_bytes(g.nodes.take(id + 1)));
            }
            id = id + 1;
        }
        assert(g.nodes.take(id as int) =~= g.nodes);
        proof {
            lemma_sealed(out@);
        }
        let sum: u32 = checksum(out.as_slice());
        put_u32(&mut out, sum);
        out
    }

    /// What saving a snapshot writes. `wal_lsn` is the first log position that
    /// it does not cover.
    pub fn save(&self, wal_lsn: u64) -> (plan: Vec<(Target, Vec<u8>)>)
        requires
            self.wf(),
        ensures
            steps(plan@) == seq![
                (
                    Target::Snapshot,
                    snapshot_bytes(self.spec_config(), wal_lsn, self.graph()),
                ),
            ],
            sealed(steps(plan@)[0].1),
    {
        let bytes: Vec<u8> = self.snapshot(wal_lsn);
        let mut plan: Vec<(Target, Vec<u8>)> = Vec::with_capacity(1);
        plan.push((Target::Snapshot, bytes));
        assert(steps(plan@) =~= seq![(Target::Snapshot, bytes@)]);
        plan
    }
}

proof fn lemma_ids_stop(file: Seq<u8>, pos: int, i: nat, n: nat, count: u64)
    requires
        i <= n,
        ids_at(file, pos, i, count) is Err,
    ensures
        ids_at(file, pos, n, count) == ids_at(file, pos, i, count),
    decreases n - i,
{
    if i < n {
        lemma_ids_stop(file, pos, i + 1, n, count);
    }
}

proof fn lemma_layers_stop(file: Seq<u8>, pos: int, i: nat, n: nat, count: u64, m: nat)
    requires
        i <= n,
        layers_at(file, pos, i, count, m) is Err,
    ensures
        layers_at(file, pos, n, count, m) == layers_at(file, pos, i, count, m),
    decreases n - i,
{
    if i < n {
        lemma_layers_stop(file, pos, i + 1, n, count, m);
    }
}

proof fn lemma_nodes_stop(file: Seq<u8>, pos: int, i: nat, n: nat, count: u64, m: nat)
    requires
        i <= n,
        nodes_at(file, pos, i, count, m) is Err,
    ensures
        nodes_at(file, pos, n, count, m) == nodes_at(file, pos, i, count, m),
    decreases n - i,
{
    if i < n {
        lemma_nodes_stop(file, pos, i + 1, n, count, m);
    }
}

/// The error of a read behind the end.
fn short() -> (e: Error)
    ensures
        reports(e, Refusal::Short),
{
    Error::Io("failed to fill whole buffer".to_string())
}

/// Reads `n` ids, and where they end.
fn read_ids(file: &[u8], pos: usize, n: usize, count: u64) -> (r: Result<(Vec<u64>, usize), Error>)
    requires
        pos <= file@.len(),
    ensures
        match ids_at(file@, pos as int, n as nat, count) {
            Err(why) => r matches Err(e) && reports(e, why),
            Ok((list, end)) => r matches Ok((v, at)) && v@ == list && at == end && end
                <= file@.len(),
        },
        r matches Ok((v, _)) ==> forall|i: int| 0 <= i < v@.len() ==> #[trigger] v@[i] < count,
{
    let mut list: Vec<u64> = Vec::new();
    let mut at: usize = pos;
    let mut i: usize = 0;
    while i < n
        invariant
            i <= n,
            at <= file@.len(),
            ids_at(file@, pos as int, i as nat, count) == Ok::<(Seq<u64>, int), Refusal>(
                (list@, at as int),
            ),
            forall|j: int| 0 <= j < list@.len() ==> #[trigger] list@[j] < count,
        decreases n - i,
    {
        if file.len() - at < 8 {
            proof {
                lemma_ids_stop(file@, pos as int, (i + 1) as nat, n as nat, count);
            }
            return Err(short());
        }
        let nb: u64 = read_u64(file, at);
        if nb >= count {
            proof {
                lemma_ids_stop(file@, pos as int, (i + 1) as nat, n as nat, count);
            }
            return Err(corrupt("snapshot: link out of range"));
        }
        list.push(nb);
        at = at + 8;
        i = i + 1;
    }
    Ok((list, at))
}

/// The links of a node lead to nodes below `count`, and its layers are few.
spec fn node_ok(node: Seq<Seq<u64>>, count: u64) -> bool {
    &&& 1 <= node.len() <= LEVEL_LIMIT + 1
    &&& forall|layer: int, j: int|
        0 <= layer < node.len() && 0 <= j < node[layer].len() ==> #[trigger] node[layer][j] < count
}

/// Reads the node at `pos`, and where it ends.
fn read_node(file: &[u8], pos: usize, count: u64, m: usize) -> (r: Result<(Node, usize), Error>)
    requires
        pos <= file@.len(),
        m <= M_LIMIT,
    ensures
        match node_at(file@, pos as int, count, m as nat) {
            Err(why) => r matches Err(e) && reports(e, why),
            Ok((node, end)) => r matches Ok((v, at)) && v@ == node && at == end && end
                <= file@.len() && node_ok(node, count),
        },
{
    if file.len() - pos < 4 {
        return Err(short());
    }
    let level32: u32 = read_u32(file, pos);
    if level32 > LEVEL_LIMIT as u32 {
        return Err(corrupt("snapshot: absurd level"));
    }
    let level: usize = level32 as usize;
    let start: usize = pos + 4;
    let mut layers: Vec<Vec<u64>> = Vec::new();
    let mut at: usize = start;
    let ghost all = (level + 1) as nat;
    let mut layer: usize = 0;
    assert(layers@.map_values(|list: Vec<u64>| list@) =~= Seq::empty());
    while layer <= level
        invariant
            layer <= level + 1,
            level <= LEVEL_LIMIT,
            all == level + 1,
            m <= M_LIMIT,
            at <= file@.len(),
            layers@.len() == layer,
            layers_at(file@, start as int, layer as nat, count, m as nat) == Ok::<
                (Seq<Seq<u64>>, int),
                Refusal,
            >((layers@.map_values(|list: Vec<u64>| list@), at as int)),
            forall|l: int, j: int|
                0 <= l < layers@.len() && 0 <= j < layers@[l]@.len() ==> #[trigger] layers@[l]@[j]
                    < count,
            node_at(file@, pos as int, count, m as nat) == layers_at(
                file@,
                start as int,
                all,
                count,
                m as nat,
            ),
        decreases level + 1 - layer,
    {
        let ghost before = layers@;
        if file.len() - at < 4 {
            proof {
                lemma_layers_stop(file@, start as int, (layer + 1) as nat, all, count, m as nat);
            }
            return Err(short());
        }
        let len: u32 = read_u32(file, at);
        let max: usize = if layer == 0 {
            2 * m
        } else {
            m
        };
        if len as u64 > max as u64 {
            proof {
                lemma_layers_stop(file@, start as int, (layer + 1) as nat, all, count, m as nat);
            }
            return Err(corrupt("snapshot: absurd degree"));
        }
        match read_ids(file, at + 4, len as usize, count) {
            Err(e) => {
                proof {
                    lemma_layers_stop(
                        file@,
                        start as int,
                        (layer + 1) as nat,
                        all,
                        count,
                        m as nat,
                    );
                }
                return Err(e);
            },
            Ok((list, end)) => {
                layers.push(list);
                at = end;
            },
        }
        proof {
            assert(layers@.map_values(|list: Vec<u64>| list@) =~= before.map_values(
                |list: Vec<u64>| list@,
            ).push(layers@[layer as int]@));
            assert forall|l: int, j: int|
                0 <= l < layers@.len() && 0 <= j < layers@[l]@.len() implies #[trigger] layers@[l]@[j]
                < count by {
                if l < before.len() {
                    assert(layers@[l] == before[l]);
                    assert(before[l]@[j] < count);
                }
            }
        }
        layer = layer + 1;
    }
    let node: Node = Node::with_links(layers);
    proof {
        assert forall|l: int, j: int| 0 <= l < node@.len() && 0 <= j < node@[l].len() implies
            #[trigger] node@[l][j] < count by {
            assert(layers@[l]@[j] < count);
        }
    }
    Ok((node, at))
}

/// The nodes in the slots of an array.
pub open spec fn nodes_in(slots: Seq<Option<Node>>) -> Seq<Seq<Seq<u64>>> {
    Seq::new(slots.len(), |i: int| slots[i]->0@)
}

/// Every slot holds a node whose links lead to nodes below `count`.
spec fn slots_ok(slots: Seq<Option<Node>>, count: u64) -> bool {
    forall|i: int|
        0 <= i < slots.len() ==> (#[trigger] slots[i]) is Some && node_ok(slots[i]->0@, count)
}

/// Reads `count` nodes, and where they end.
fn read_nodes(file: &[u8], count: u64, m: usize) -> (r: Result<(SegVec<Node>, usize), Error>)
    requires
        HEADER <= file@.len(),
        m <= M_LIMIT,
        count <= MAX_NODES,
        count <= file@.len() / 8,
    ensures
        match nodes_at(file@, HEADER as int, count as nat, count, m as nat) {
            Err(why) => r matches Err(e) && reports(e, why),
            Ok((nodes, end)) => r matches Ok((v, at)) && v.wf() && nodes_in(v@) == nodes
                && slots_ok(v@, count) && v@.len() == count && at == end && end <= file@.len(),
        },
{
    let mut nodes: SegVec<Node> = SegVec::new();
    let mut at: usize = HEADER;
    let mut i: usize = 0;
    assert(nodes_in(nodes@) =~= Seq::empty());
    assert(file@.len() == file.len());
    while i < count as usize
        invariant
            i <= count,
            count <= MAX_NODES,
            count <= file@.len() / 8,
            file@.len() <= usize::MAX,
            at <= file@.len(),
            m <= M_LIMIT,
            nodes.wf(),
            nodes@.len() == i,
            slots_ok(nodes@, count),
            nodes_at(file@, HEADER as int, i as nat, count, m as nat) == Ok::<
                (Seq<Seq<Seq<u64>>>, int),
                Refusal,
            >((nodes_in(nodes@), at as int)),
        decreases count - i,
    {
        let ghost before = nodes@;
        match read_node(file, at, count, m) {
            Err(e) => {
                proof {
                    lemma_nodes_stop(
                        file@,
                        HEADER as int,
                        (i + 1) as nat,
                        count as nat,
                        count,
                        m as nat,
                    );
                }
                return Err(e);
            },
            Ok((node, end)) => {
                proof {
                    lemma_room(i as nat);
                }
                nodes.set(i, node);
                at = end;
                proof {
                    assert(nodes@ =~= before.push(Some(node)));
                    assert(nodes_in(nodes@) =~= nodes_in(before).push(node@));
                }
            },
        }
        i = i + 1;
    }
    Ok((nodes, at))
}

/// There is room for every node of a snapshot.
proof fn lemma_room(i: nat)
    requires
        i < MAX_NODES,
    ensures
        crate::doubling::segment_of(i) < MAX_SEGMENTS,
{
    let seg = crate::doubling::segment_of(i);
    crate::doubling::law_every_row_has_one_place(i, seg);
    vstd::arithmetic::power2::lemma2_to64();
    vstd::arithmetic::power2::lemma2_to64_rest();
    if seg >= 40 {
        crate::doubling::lemma_segments_grow(40, seg);
    }
}

/// Looks for what is wrong before the first node.
fn check_header(file: &[u8]) -> (r: Result<(), Error>)
    ensures
        match header_refusal(file@) {
            Some(why) => r matches Err(e) && reports(e, why),
            None => r is Ok,
        },
        forall|good: Seq<u8>| #[trigger]
            one_byte_off(file@, good) && sealed(good) ==> r is Err && is_corrupt(
                r->Err_0,
                "snapshot: checksum mismatch"@,
            ),
{
    let len: usize = file.len();
    if len < 4 {
        return Err(corrupt("snapshot: truncated"));
    }
    let body: &[u8] = vstd::slice::slice_subrange(file, 0, len - 4);
    assert(body@ =~= file@.take(file@.len() - 4));
    let sum: u32 = checksum(body);
    proof {
        assert forall|good: Seq<u8>| #[trigger]
            one_byte_off(file@, good) && sealed(good) implies u32_at(file@, len - 4) != sum by {
            lemma_damage_shows(file@, good, sum);
        }
    }
    if read_u32(file, len - 4) != sum {
        return Err(corrupt("snapshot: checksum mismatch"));
    }
    if read_u32(file, 0) != MAGIC {
        return Err(corrupt("snapshot: bad magic"));
    }
    if len < 8 {
        return Err(short());
    }
    if read_u32(file, 4) != VERSION {
        return Err(corrupt("snapshot: unsupported version"));
    }
    if len < 17 {
        return Err(short());
    }
    match metric_from(file[16]) {
        Err(e) => {
            return Err(e);
        },
        Ok(_) => {},
    }
    if len < HEADER {
        return Err(short());
    }
    let m: u32 = read_u32(file, 8);
    if m < 2 || m > M_LIMIT as u32 {
        return Err(corrupt("snapshot: HNSW M out of range"));
    }
    if read_u64(file, 25) > (len / 8) as u64 {
        return Err(corrupt("snapshot: impossible node count"));
    }
    Ok(())
}

/// Looks for what is wrong behind the last node.
fn check_tail(file: &[u8], nodes: &SegVec<Node>, end: usize, word: u64) -> (r: Result<(), Error>)
    requires
        HEADER <= end <= file@.len(),
        word == u64_at(file@, 33),
        nodes.wf(),
        forall|i: int|
            0 <= i < nodes@.len() ==> (#[trigger] nodes@[i]) is Some && nodes@[i]->0@.len() >= 1,
    ensures
        match tail_refusal(file@, nodes_in(nodes@), end as int) {
            Some(why) => r matches Err(e) && reports(e, why),
            None => r is Ok,
        },
{
    let len: usize = file.len();
    if len - end < 4 {
        return Err(short());
    }
    let body: &[u8] = vstd::slice::slice_subrange(file, 0, end);
    assert(body@ =~= file@.take(end as int));
    if read_u32(file, end) != checksum(body) {
        return Err(corrupt("snapshot: checksum mismatch"));
    }
    if len - end > 4 {
        return Err(corrupt("snapshot: trailing bytes"));
    }
    if word != ENTRY_NONE {
        let (id, level) = unpack_entry(word);
        let n: usize = nodes.len();
        if id >= n as u64 {
            return Err(corrupt("snapshot: entry out of range"));
        }
        let node: &Node = nodes.get_unchecked(id as usize);
        assert(nodes_in(nodes@)[id as int] == node@);
        if level != node.level() {
            return Err(corrupt("snapshot: entry level mismatch"));
        }
    }
    Ok(())
}

impl Hnsw {
    /// Loads a snapshot. Returns the index and the log position that replay
    /// resumes from. A snapshot of which a byte was changed, wherever it is,
    /// never loads.
    pub fn load(file: &[u8]) -> (r: Result<(Hnsw, u64), Error>)
        requires
            file@.len() / 8 <= MAX_NODES,
        ensures
            match graph_in(file@) {
                Err(why) => r matches Err(e) && reports(e, why),
                Ok(g) => r matches Ok((index, lsn)) && index.wf() && index.graph() == g
                    && index.spec_config() == config_in(file@) && lsn == lsn_in(file@),
            },
            forall|good: Seq<u8>| #[trigger]
                one_byte_off(file@, good) && sealed(good) ==> r is Err && is_corrupt(
                    r->Err_0,
                    "snapshot: checksum mismatch"@,
                ),
    {
        match check_header(file) {
            Err(e) => {
                return Err(e);
            },
            Ok(_) => {},
        }
        let m: usize = read_u32(file, 8) as usize;
        let ef_construction: usize = read_u32(file, 12) as usize;
        let metric: Metric = match metric_from(file[16]) {
            Ok(metric) => metric,
            Err(e) => {
                return Err(e);
            },
        };
        let wal_lsn: u64 = read_u64(file, 17);
        let count: u64 = read_u64(file, 25);
        let word: u64 = read_u64(file, 33);
        let config = HnswConfig { m, ef_construction, metric };
        match read_nodes(file, count, m) {
            Err(e) => Err(e),
            Ok((nodes, end)) => {
                proof {
                    lemma_nodes_end(file@, HEADER as int, count as nat, count, m as nat);
                }
                match check_tail(file, &nodes, end, word) {
                    Err(e) => Err(e),
                    Ok(_) => {
                        proof {
                            let g = Graph { nodes: nodes_in(nodes@), entry: unpacked(word) };
                            assert forall|i: int, layer: int, j: int|
                                0 <= i < g.nodes.len() && 0 <= layer < g.nodes[i].len() && 0 <= j
                                    < g.nodes[i][layer].len() implies #[trigger] g.nodes[i][layer][j]
                                < g.nodes.len() by {
                                assert(node_ok(nodes@[i]->0@, count));
                            }
                            assert(valid(g));
                        }
                        Ok((Hnsw::assemble(config, nodes, word), wal_lsn))
                    },
                }
            },
        }
    }
}

/// Nodes end behind where they start.
proof fn lemma_nodes_end(file: Seq<u8>, pos: int, n: nat, count: u64, m: nat)
    ensures
        nodes_at(file, pos, n, count, m) matches Ok((nodes, end)) ==> end >= pos,
    decreases n,
{
    if n > 0 {
        lemma_nodes_end(file, pos, (n - 1) as nat, count, m);
        if let Ok((nodes, at)) = nodes_at(file, pos, (n - 1) as nat, count, m) {
            if at + 4 <= file.len() {
                lemma_layers_end(file, at + 4, (u32_at(file, at) + 1) as nat, count, m);
            }
        }
    }
}

proof fn lemma_layers_end(file: Seq<u8>, pos: int, n: nat, count: u64, m: nat)
    ensures
        layers_at(file, pos, n, count, m) matches Ok((layers, end)) ==> end >= pos,
    decreases n,
{
    if n > 0 {
        lemma_layers_end(file, pos, (n - 1) as nat, count, m);
        if let Ok((layers, at)) = layers_at(file, pos, (n - 1) as nat, count, m) {
            lemma_ids_end(file, at + 4, u32_at(file, at) as nat, count);
        }
    }
}

proof fn lemma_ids_end(file: Seq<u8>, pos: int, n: nat, count: u64)
    ensures
        ids_at(file, pos, n, count) matches Ok((list, end)) ==> end >= pos,
    decreases n,
{
    if n > 0 {
        lemma_ids_end(file, pos, (n - 1) as nat, count);
    }
}

} // verus!
