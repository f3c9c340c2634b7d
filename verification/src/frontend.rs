//! What the command line and the Python module decide.

use crate::distance::Metric;
use crate::float32::INFINITY;
use crate::storage::neighbor::Neighbor;
use vstd::prelude::*;

verus! {

/// Whether `name` is this text.
fn is(name: &String, text: &str) -> (r: bool)
    ensures
        r == (name@ == text@),
{
    *name == text.to_string()
}

/// The metric with this name.
pub open spec fn metric_with_name(name: Seq<char>) -> Option<Metric> {
    if name == "l2"@ {
        Some(Metric::L2)
    } else if name == "ip"@ || name == "dot"@ {
        Some(Metric::Dot)
    } else if name == "cosine"@ {
        Some(Metric::Cosine)
    } else {
        None
    }
}

/// The metric with this name.
pub fn metric_named(name: &String) -> (metric: Option<Metric>)
    ensures
        metric == metric_with_name(name@),
{
    if is(name, "l2") {
        Some(Metric::L2)
    } else if is(name, "ip") || is(name, "dot") {
        Some(Metric::Dot)
    } else if is(name, "cosine") {
        Some(Metric::Cosine)
    } else {
        None
    }
}

/// What the command line asks for.
#[derive(Debug, Clone, Copy, PartialEq, Eq, Structural)]
pub enum Command {
    /// Insert vectors, with a checkpoint now and then if `checkpoints` is set.
    Ingest { checkpoints: bool },
    /// Check what was recovered.
    Verify,
    /// Count the nodes that nothing leads to.
    Orphans,
    /// Search for the neighbours of a vector.
    Search,
}

/// The command with this name and so many words on the command line, that of
/// the program and the name among them.
pub open spec fn command_of(name: Seq<char>, words: nat) -> Option<Command> {
    if name == "ingest"@ && words >= 5 {
        Some(Command::Ingest { checkpoints: words >= 6 })
    } else if name == "verify"@ && words == 5 {
        Some(Command::Verify)
    } else if name == "orphans"@ && words == 4 {
        Some(Command::Orphans)
    } else if name == "search"@ && words == 6 {
        Some(Command::Search)
    } else {
        None
    }
}

/// The command that the command line asks for.
pub fn command(name: &String, words: usize) -> (c: Option<Command>)
    ensures
        c == command_of(name@, words as nat),
{
    if is(name, "ingest") && words >= 5 {
        Some(Command::Ingest { checkpoints: words >= 6 })
    } else if is(name, "verify") && words == 5 {
        Some(Command::Verify)
    } else if is(name, "orphans") && words == 4 {
        Some(Command::Orphans)
    } else if is(name, "search") && words == 6 {
        Some(Command::Search)
    } else {
        None
    }
}

/// Component `j` of the test vector with this id, as an integer: the top half
/// of a mix of the two numbers, without its sign bit.
pub open spec fn pattern_word(id: u64, j: u64) -> u32 {
    ((id * 6364136223846793005 + j * 1442695040888963407) % 0x1_0000_0000_0000_0000
        / 0x2_0000_0000) as u32
}

/// The components of the test vector with this id, as integers.
pub fn pattern(id: u64, dim: usize) -> (words: Vec<u32>)
    ensures
        words@.len() == dim,
        forall|j: int| 0 <= j < dim ==> #[trigger] words@[j] == pattern_word(id, j as u64),
{
    let mut words: Vec<u32> = Vec::with_capacity(dim);
    let mut j: usize = 0;
    while j < dim
        invariant
            j <= dim,
            words@.len() == j,
            forall|i: int| 0 <= i < j ==> #[trigger] words@[i] == pattern_word(id, i as u64),
        decreases dim - j,
    {
        let a: u64 = id.wrapping_mul(6364136223846793005);
        let b: u64 = (j as u64).wrapping_mul(1442695040888963407);
        let x: u64 = a.wrapping_add(b);
        proof {
            lemma_mix(id as int * 6364136223846793005, j as int * 1442695040888963407);
            assert(x >> 33 == x / 0x2_0000_0000) by (bit_vector);
        }
        words.push((x >> 33) as u32);
        j = j + 1;
    }
    words
}

proof fn lemma_mix(p: int, q: int)
    ensures
        (p % 0x1_0000_0000_0000_0000 + q % 0x1_0000_0000_0000_0000) % 0x1_0000_0000_0000_0000 == (p
            + q) % 0x1_0000_0000_0000_0000,
{
    vstd::arithmetic::div_mod::lemma_add_mod_noop(p, q, 0x1_0000_0000_0000_0000);
}

/// Whether a checkpoint follows insert number `i`.
pub fn checkpoint_due(i: u64, every: u64) -> (due: bool)
    requires
        i < u64::MAX,
        every > 0,
    ensures
        due == ((i + 1) % every as int == 0),
{
    (i + 1) % every == 0
}

/// Whether a graph is degraded: more than one in a thousand of its nodes can no
/// longer be reached.
pub fn degraded(orphans: usize, len: usize) -> (r: bool)
    ensures
        r == (1000 * orphans > if len == 0 {
            1
        } else {
            len as int
        }),
{
    let nodes: usize = if len == 0 {
        1
    } else {
        len
    };
    1000 * (orphans as u128) > nodes as u128
}

/// A row of `k` results: those found, then nothing, which is the largest id at
/// an infinite distance.
pub open spec fn padded(hits: Seq<Neighbor>, k: nat) -> Seq<Neighbor> {
    Seq::new(
        k,
        |i: int|
            if i < hits.len() {
                hits[i]
            } else {
                Neighbor { id: u64::MAX, distance: INFINITY }
            },
    )
}

/// A row of `k` results.
pub fn pad_row(hits: &Vec<Neighbor>, k: usize) -> (row: Vec<Neighbor>)
    requires
        hits@.len() <= k,
    ensures
        row@ == padded(hits@, k as nat),
{
    let mut row: Vec<Neighbor> = Vec::with_capacity(k);
    while row.len() < k
        invariant
            row@.len() <= k,
            hits@.len() <= k,
            row@ == padded(hits@, k as nat).take(row@.len() as int),
        decreases k - row@.len(),
    {
        let i: usize = row.len();
        let next: Neighbor = if i < hits.len() {
            hits[i]
        } else {
            Neighbor { id: u64::MAX, distance: INFINITY }
        };
        row.push(next);
        assert(row@ =~= padded(hits@, k as nat).take(i + 1));
    }
    assert(row@ =~= padded(hits@, k as nat));
    row
}

} // verus!
