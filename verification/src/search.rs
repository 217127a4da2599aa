//! The nearest live resource node to a position, by Manhattan distance.
//!
//! Among nodes at the same distance the one with the lowest index wins, so
//! the answer does not depend on how the work was divided. Small arenas are
//! searched in place; larger ones are cut into chunks that a worker pool
//! searches side by side, and the chunks' answers are merged in order.

use crate::geometry::Position;
use crate::resource::ResourceNode;
use bevy::tasks::ParallelSlice;
use vstd::prelude::*;

verus! {

/// `bevy::tasks::ComputeTaskPool`, the worker pool that a divided search
/// runs on. Nothing is known of its state: it is only handed on to the call
/// that divides the work.
#[verifier::external_type_specification]
#[verifier::external_body]
pub struct ExComputeTaskPool(bevy::tasks::ComputeTaskPool);

/// Nodes in one chunk of a divided search.
pub const SEARCH_CHUNK: usize = 32;

/// A node found by a search, with its distance from where the search began.
#[derive(Clone, Copy, Debug, PartialEq, Eq, Structural)]
pub struct Candidate {
    pub index: usize,
    pub distance: u128,
}

/// The Manhattan distance from `origin` to node `i`.
pub open spec fn distance_to(nodes: Seq<ResourceNode>, origin: Position, i: int) -> int {
    nodes[i].position.manhattan(origin)
}

/// Node `i` is to be preferred to node `j`: it is nearer, or as near and of
/// no higher index.
pub open spec fn preferred(nodes: Seq<ResourceNode>, origin: Position, i: int, j: int) -> bool {
    distance_to(nodes, origin, i) < distance_to(nodes, origin, j) || (distance_to(nodes, origin, i)
        == distance_to(nodes, origin, j) && i <= j)
}

/// Node `i` is the nearest live node among those with an index in `lo..hi`.
pub open spec fn is_nearest_among(
    nodes: Seq<ResourceNode>,
    origin: Position,
    i: int,
    lo: int,
    hi: int,
) -> bool {
    &&& lo <= i < hi
    &&& !nodes[i].consumed
    &&& forall|j: int| lo <= j < hi && !(#[trigger] nodes[j]).consumed ==> preferred(nodes, origin, i, j)
}

/// No node with an index in `lo..hi` is live.
pub open spec fn none_live_among(nodes: Seq<ResourceNode>, lo: int, hi: int) -> bool {
    forall|j: int| lo <= j < hi ==> (#[trigger] nodes[j]).consumed
}

/// Some node is live.
pub open spec fn has_live(nodes: Seq<ResourceNode>) -> bool {
    exists|j: int| 0 <= j < nodes.len() && !(#[trigger] nodes[j]).consumed
}

/// `found` is what a search among the nodes with an index in `lo..hi` must
/// answer: nothing where none of them is live, else the nearest live one
/// with its distance.
pub open spec fn is_result_among(
    nodes: Seq<ResourceNode>,
    origin: Position,
    found: Option<Candidate>,
    lo: int,
    hi: int,
) -> bool {
    match found {
        Some(c) => is_nearest_among(nodes, origin, c.index as int, lo, hi) && c.distance
            == distance_to(nodes, origin, c.index as int),
        None => none_live_among(nodes, lo, hi),
    }
}

/// `found` is what a search of all the nodes must answer.
pub open spec fn is_search_result(
    nodes: Seq<ResourceNode>,
    origin: Position,
    found: Option<Candidate>,
) -> bool {
    is_result_among(nodes, origin, found, 0, nodes.len() as int)
}

/// The answer of a search of all the nodes.
pub open spec fn nearest(nodes: Seq<ResourceNode>, origin: Position) -> Option<Candidate> {
    choose|found: Option<Candidate>| is_search_result(nodes, origin, found)
}

/// The number of chunks of `chunk_size` into which `len` nodes are cut.
pub open spec fn chunk_count(len: int, chunk_size: int) -> int {
    (len + chunk_size - 1) / chunk_size
}

/// Where chunk `k` begins.
pub open spec fn chunk_start(chunk_size: int, k: int) -> int {
    k * chunk_size
}

/// Where chunk `k` ends: the last chunk may be short.
pub open spec fn chunk_end(len: int, chunk_size: int, k: int) -> int {
    if (k + 1) * chunk_size <= len {
        (k + 1) * chunk_size
    } else {
        len
    }
}

/// Chunk `k` of the nodes.
pub open spec fn chunk_of(nodes: Seq<ResourceNode>, chunk_size: int, k: int) -> Seq<ResourceNode> {
    nodes.subrange(chunk_start(chunk_size, k), chunk_end(nodes.len() as int, chunk_size, k))
}

/// The node that a search answers with is live, and no live node is nearer
/// to where the search began.
pub proof fn law_nearest_is_nearest(
    nodes: Seq<ResourceNode>,
    origin: Position,
    found: Option<Candidate>,
)
    requires
        is_search_result(nodes, origin, found),
    ensures
        found is None <==> !has_live(nodes),
        found matches Some(c) ==> {
            &&& c.index < nodes.len()
            &&& !nodes[c.index as int].consumed
            &&& c.distance == nodes[c.index as int].position.manhattan(origin)
            &&& forall|j: int|
                0 <= j < nodes.len() && !(#[trigger] nodes[j]).consumed ==> c.distance
                    <= nodes[j].position.manhattan(origin)
        },
{
    match found {
        Some(c) => {
            assert(!nodes[c.index as int].consumed);
            assert forall|j: int| 0 <= j < nodes.len() && !(#[trigger] nodes[j]).consumed implies c.distance
                <= nodes[j].position.manhattan(origin) by {
                assert(preferred(nodes, origin, c.index as int, j));
            }
        },
        None => {},
    }
}

/// A search has one answer only.
pub proof fn lemma_search_result_unique(
    nodes: Seq<ResourceNode>,
    origin: Position,
    a: Option<Candidate>,
    b: Option<Candidate>,
)
    requires
        is_search_result(nodes, origin, a),
        is_search_result(nodes, origin, b),
    ensures
        a == b,
        nearest(nodes, origin) == a,
        a is Some <==> has_live(nodes),
{
    match a {
        Some(c) => {
            assert(!nodes[c.index as int].consumed);
        },
        None => {},
    }
    lemma_result_among_unique(nodes, origin, a, b, 0, nodes.len() as int);
    lemma_result_among_unique(
        nodes,
        origin,
        a,
        nearest(nodes, origin),
        0,
        nodes.len() as int,
    );
}

proof fn lemma_result_among_unique(
    nodes: Seq<ResourceNode>,
    origin: Position,
    a: Option<Candidate>,
    b: Option<Candidate>,
    lo: int,
    hi: int,
)
    requires
        is_result_among(nodes, origin, a, lo, hi),
        is_result_among(nodes, origin, b, lo, hi),
    ensures
        a == b,
{
    match (a, b) {
        (Some(x), Some(y)) => {
            assert(preferred(nodes, origin, x.index as int, y.index as int));
            assert(preferred(nodes, origin, y.index as int, x.index as int));
        },
        (Some(x), None) => {
            assert(nodes[x.index as int].consumed);
        },
        (None, Some(y)) => {
            assert(nodes[y.index as int].consumed);
        },
        (None, None) => {},
    }
}

/// The nearest live node of a slice, found by walking it once.
pub fn nearest_in_slice(nodes: &[ResourceNode], origin: Position) -> (found: Option<Candidate>)
    ensures
        is_search_result(nodes@, origin, found),
        found == nearest(nodes@, origin),
        found is Some <==> has_live(nodes@),
{
    let mut found: Option<Candidate> = None;
    let mut i: usize = 0;
    while i < nodes.len()
        invariant
            i <= nodes@.len(),
            is_result_among(nodes@, origin, found, 0, i as int),
        decreases nodes@.len() - i,
    {
        if !nodes[i].consumed {
            let distance = nodes[i].position.manhattan_distance(&origin);
            let closer = match found {
                Some(c) => distance < c.distance,
                None => true,
            };
            if closer {
                found = Some(Candidate { index: i, distance });
            }
        }
        i = i + 1;
    }
    proof {
        lemma_search_result_unique(nodes@, origin, found, found);
    }
    found
}

/// Calls `bevy::tasks::ParallelSlice::par_chunk_map`, which cuts the slice
/// into chunks of `chunk_size` with `slice::chunks`, runs the closure on each
/// chunk as a task of the pool, and returns the tasks' results in the order
/// of the chunks. The closure is `nearest_in_slice`, so each entry is that
/// function's answer on its chunk, with indices counted from the chunk's
/// start. A chunk size of zero would panic, and with a single chunk the call
/// waits on the pool's own threads alone; both are left out.
#[verifier::external_body]
fn chunk_minima(
    pool: &bevy::tasks::ComputeTaskPool,
    nodes: &Vec<ResourceNode>,
    origin: Position,
    chunk_size: usize,
) -> (minima: Vec<Option<Candidate>>)
    requires
        0 < chunk_size < nodes@.len(),
    ensures
        minima@.len() == chunk_count(nodes@.len() as int, chunk_size as int),
        forall|k: int|
            0 <= k < minima@.len() ==> is_search_result(
                chunk_of(nodes@, chunk_size as int, k),
                origin,
                #[trigger] minima@[k],
            ),
{
    nodes.par_chunk_map(&pool.0, chunk_size, |chunk| nearest_in_slice(chunk, origin))
}

/// The nearest live node, from the answers of the chunks: the nearest of the
/// chunks' candidates, the earlier chunk winning a tie.
fn merge_minima(
    minima: &Vec<Option<Candidate>>,
    chunk_size: usize,
    Ghost(nodes): Ghost<Seq<ResourceNode>>,
    Ghost(origin): Ghost<Position>,
) -> (found: Option<Candidate>)
    requires
        0 < chunk_size,
        nodes.len() <= usize::MAX,
        minima@.len() == chunk_count(nodes.len() as int, chunk_size as int),
        forall|k: int|
            0 <= k < minima@.len() ==> is_search_result(
                chunk_of(nodes, chunk_size as int, k),
                origin,
                #[trigger] minima@[k],
            ),
    ensures
        is_search_result(nodes, origin, found),
{
    let mut found: Option<Candidate> = None;
    let mut k: usize = 0;
    let ghost len = nodes.len() as int;
    let ghost cs = chunk_size as int;
    proof {
        if minima@.len() > 0 {
            lemma_chunk_bounds(len, cs, 0);
        } else {
            vstd::arithmetic::div_mod::lemma_fundamental_div_mod(len + cs - 1, cs);
            vstd::arithmetic::div_mod::lemma_mod_bound(len + cs - 1, cs);
        }
    }
    while k < minima.len()
        invariant
            0 < chunk_size,
            cs == chunk_size,
            len == nodes.len(),
            len <= usize::MAX,
            k <= minima@.len(),
            minima@.len() == chunk_count(len, cs),
            forall|k: int|
                0 <= k < minima@.len() ==> is_search_result(
                    chunk_of(nodes, cs, k),
                    origin,
                    #[trigger] minima@[k],
                ),
            k < minima@.len() ==> chunk_start(cs, k as int) < len,
            k == minima@.len() ==> chunk_start(cs, k as int) >= len,
            is_result_among(
                nodes,
                origin,
                found,
                0,
                if k == minima@.len() {
                    len
                } else {
                    chunk_start(cs, k as int)
                },
            ),
        decreases minima@.len() - k,
    {
        let ghost lo = chunk_start(cs, k as int);
        let ghost hi = chunk_end(len, cs, k as int);
        proof {
            lemma_chunk_bounds(len, cs, k as int);
            lemma_chunk_result(nodes, origin, cs, k as int, minima@[k as int]);
        }
        match minima[k] {
            Some(c) => {
                let shifted = Candidate { index: k * chunk_size + c.index, distance: c.distance };
                let closer = match found {
                    Some(b) => c.distance < b.distance,
                    None => true,
                };
                if closer {
                    found = Some(shifted);
                }
            },
            None => {},
        }
        k = k + 1;
        proof {
            assert(is_result_among(nodes, origin, found, 0, hi));
        }
    }
    found
}

/// The nearest live node of the arena. An arena of more than one chunk is
/// searched chunk by chunk on the pool; the answer is the same either way.
pub fn nearest_resource(
    nodes: &Vec<ResourceNode>,
    origin: Position,
    pool: &bevy::tasks::ComputeTaskPool,
) -> (found: Option<Candidate>)
    ensures
        is_search_result(nodes@, origin, found),
        found == nearest(nodes@, origin),
        found is Some <==> has_live(nodes@),
{
    if nodes.len() <= SEARCH_CHUNK {
        nearest_in_slice(nodes.as_slice(), origin)
    } else {
        let minima = chunk_minima(pool, nodes, origin, SEARCH_CHUNK);
        let found = merge_minima(&minima, SEARCH_CHUNK, Ghost(nodes@), Ghost(origin));
        proof {
            lemma_search_result_unique(nodes@, origin, found, found);
        }
        found
    }
}

/// Chunk `k` is one of the chunks: it begins inside the arena, ends after
/// it begins, and the last chunk ends where the arena ends.
proof fn lemma_chunk_bounds(len: int, cs: int, k: int)
    requires
        0 < cs,
        0 <= len,
        0 <= k < chunk_count(len, cs),
    ensures
        0 <= chunk_start(cs, k) < chunk_end(len, cs, k) <= len,
        chunk_end(len, cs, k) - chunk_start(cs, k) <= cs,
        k + 1 < chunk_count(len, cs) ==> chunk_end(len, cs, k) == chunk_start(cs, k + 1)
            && chunk_start(cs, k + 1) < len,
        k + 1 == chunk_count(len, cs) ==> chunk_end(len, cs, k) == len && chunk_start(cs, k + 1)
            >= len,
{
    let n = chunk_count(len, cs);
    vstd::arithmetic::div_mod::lemma_fundamental_div_mod(len + cs - 1, cs);
    vstd::arithmetic::div_mod::lemma_mod_bound(len + cs - 1, cs);
    assert(cs * n <= len + cs - 1 < cs * n + cs);
    assert(k * cs <= (n - 1) * cs) by (nonlinear_arith)
        requires
            k <= n - 1,
            0 < cs,
    ;
    assert((n - 1) * cs == cs * n - cs) by (nonlinear_arith);
    assert((k + 1) * cs == k * cs + cs) by (nonlinear_arith);
    assert(0 <= k * cs) by (nonlinear_arith)
        requires
            0 <= k,
            0 < cs,
    ;
    if k + 1 < n {
        assert((k + 1) * cs <= (n - 1) * cs) by (nonlinear_arith)
            requires
                k + 1 <= n - 1,
                0 < cs,
        ;
    }
    if k + 1 == n {
        assert((k + 1) * cs == cs * n) by (nonlinear_arith)
            requires
                k + 1 == n,
        ;
    }
}

/// The answer of a chunk, its index counted from the start of the arena, is
/// the answer of a search among the chunk's nodes.
proof fn lemma_chunk_result(
    nodes: Seq<ResourceNode>,
    origin: Position,
    cs: int,
    k: int,
    found: Option<Candidate>,
)
    requires
        0 < cs,
        0 <= k < chunk_count(nodes.len() as int, cs),
        is_search_result(chunk_of(nodes, cs, k), origin, found),
    ensures
        match found {
            Some(c) => is_nearest_among(
                nodes,
                origin,
                chunk_start(cs, k) + c.index,
                chunk_start(cs, k),
                chunk_end(nodes.len() as int, cs, k),
            ) && c.distance == distance_to(nodes, origin, chunk_start(cs, k) + c.index),
            None => none_live_among(
                nodes,
                chunk_start(cs, k),
                chunk_end(nodes.len() as int, cs, k),
            ),
        },
{
    let len = nodes.len() as int;
    lemma_chunk_bounds(len, cs, k);
    let lo = chunk_start(cs, k);
    let hi = chunk_end(len, cs, k);
    let chunk = chunk_of(nodes, cs, k);
    assert(chunk.len() == hi - lo);
    assert forall|j: int| lo <= j < hi implies (#[trigger] nodes[j]) == chunk[j - lo] by {}
    match found {
        Some(c) => {
            let i = lo + c.index;
            assert(nodes[i] == chunk[c.index as int]);
            assert forall|j: int| lo <= j < hi && !(#[trigger] nodes[j]).consumed implies preferred(
                nodes,
                origin,
                i,
                j,
            ) by {
                assert(!chunk[j - lo].consumed);
                assert(preferred(chunk, origin, c.index as int, j - lo));
            }
        },
        None => {
            assert forall|j: int| lo <= j < hi implies (#[trigger] nodes[j]).consumed by {
                assert(chunk[j - lo].consumed);
            }
        },
    }
}

} // verus!
