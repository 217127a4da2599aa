//! Natural resources: their kinds, the nodes that hold them, and the
//! scattering of nodes over the world at setup.

use crate::geometry::{Position, UNIT, WORLD_LIMIT};
use crate::random::{draw_between, draw_ratio};
use vstd::prelude::*;

verus! {

/// World units from the origin to the edge of the square over which
/// resources are scattered.
pub const PLANT_EXTENT: i64 = 1000;

/// One grid point in this many receives a resource node.
pub const PLANT_ODDS: u32 = 10_000;

/// The kinds of natural resource.
#[derive(Debug, PartialEq, Eq, Clone, Copy, Hash, Structural)]
pub enum NaturalResourceType {
    Coal,
    Iron,
    Gold,
    Wood,
    Water,
}

impl NaturalResourceType {
    /// The kind that a roll of the five-sided die stands for. The two highest
    /// rolls both stand for wood, so no roll stands for water.
    pub open spec fn of_roll(roll: int) -> NaturalResourceType {
        if roll == 0 {
            NaturalResourceType::Coal
        } else if roll == 1 {
            NaturalResourceType::Iron
        } else if roll == 2 {
            NaturalResourceType::Gold
        } else {
            NaturalResourceType::Wood
        }
    }

    /// The kind that a roll of the five-sided die stands for.
    pub fn from_roll(roll: usize) -> (kind: NaturalResourceType)
        requires
            roll < 5,
        ensures
            kind == Self::of_roll(roll as int),
            kind != NaturalResourceType::Water,
    {
        match roll {
            0 => NaturalResourceType::Coal,
            1 => NaturalResourceType::Iron,
            2 => NaturalResourceType::Gold,
            _ => NaturalResourceType::Wood,
        }
    }

    /// Rolls the five-sided die for a kind. Whatever the roll, the kind is
    /// not water.
    pub fn pick(rng: &mut rand::rngs::StdRng) -> (kind: NaturalResourceType)
        ensures
            exists|roll: int| 0 <= roll < 5 && kind == Self::of_roll(roll),
            kind != NaturalResourceType::Water,
    {
        let roll: i64 = draw_between(rng, 0, 4);
        let kind = Self::from_roll(roll as usize);
        assert(kind == Self::of_roll(roll as int));
        kind
    }
}

/// What a resource node yields.
#[derive(Debug, Clone, Copy, PartialEq, Eq, Structural)]
pub struct NaturalResource(pub NaturalResourceType);

/// A resource node of the world. A node is never removed from its arena, so
/// that its index stays its identity; gathering it marks it consumed.
#[derive(Debug, Clone, Copy, PartialEq, Eq, Structural)]
pub struct ResourceNode {
    pub resource: NaturalResource,
    pub position: Position,
    /// Set once, when a gatherer arrives at the node. A consumed node is no
    /// longer live: no search finds it and no arrival gathers it.
    pub consumed: bool,
}

impl ResourceNode {
    /// The node lies inside the world.
    pub open spec fn wf(self) -> bool {
        self.position.within(WORLD_LIMIT as int)
    }

    /// The node as it is once gathered.
    pub open spec fn gathered(self) -> ResourceNode {
        ResourceNode { resource: self.resource, position: self.position, consumed: true }
    }

    /// Whether the node lies inside the world.
    pub fn is_wf(&self) -> (ok: bool)
        ensures
            ok == self.wf(),
    {
        self.position.is_within(WORLD_LIMIT)
    }

    /// A live node of the given kind, or `None` where the position lies
    /// outside the world.
    pub fn new(kind: NaturalResourceType, position: Position) -> (node: Option<ResourceNode>)
        ensures
            node is Some <==> position.within(WORLD_LIMIT as int),
            node matches Some(n) ==> n == (ResourceNode {
                resource: NaturalResource(kind),
                position,
                consumed: false,
            }),
    {
        if position.is_within(WORLD_LIMIT) {
            Some(ResourceNode { resource: NaturalResource(kind), position, consumed: false })
        } else {
            None
        }
    }
}

/// Every node lies inside the world.
pub open spec fn nodes_wf(nodes: Seq<ResourceNode>) -> bool {
    forall|k: int| 0 <= k < nodes.len() ==> (#[trigger] nodes[k]).wf()
}

/// The number of consumed nodes among the first `n`.
pub open spec fn consumed_upto(nodes: Seq<ResourceNode>, n: nat) -> nat
    decreases n,
{
    if n == 0 {
        0
    } else {
        consumed_upto(nodes, (n - 1) as nat) + if nodes[n - 1].consumed {
            1nat
        } else {
            0nat
        }
    }
}

/// The number of consumed nodes.
pub open spec fn consumed_count(nodes: Seq<ResourceNode>) -> nat {
    consumed_upto(nodes, nodes.len())
}

/// Whether every node lies inside the world.
pub fn check_nodes(nodes: &Vec<ResourceNode>) -> (ok: bool)
    ensures
        ok == nodes_wf(nodes@),
{
    let mut k: usize = 0;
    while k < nodes.len()
        invariant
            k <= nodes@.len(),
            forall|j: int| 0 <= j < k ==> (#[trigger] nodes@[j]).wf(),
        decreases nodes@.len() - k,
    {
        if !nodes[k].is_wf() {
            return false;
        }
        k = k + 1;
    }
    true
}

/// The number of consumed nodes.
pub fn count_consumed(nodes: &Vec<ResourceNode>) -> (count: usize)
    ensures
        count == consumed_count(nodes@),
{
    let mut count: usize = 0;
    let mut k: usize = 0;
    while k < nodes.len()
        invariant
            k <= nodes@.len(),
            count == consumed_upto(nodes@, k as nat),
            count <= k,
        decreases nodes@.len() - k,
    {
        if nodes[k].consumed {
            count = count + 1;
        }
        k = k + 1;
    }
    count
}

/// The position sits on a point of the planting grid: whole world units, no
/// further than `PLANT_EXTENT` from the origin along either axis.
pub open spec fn on_plant_grid(p: Position) -> bool {
    exists|gx: int, gy: int|
        -PLANT_EXTENT <= gx <= PLANT_EXTENT && -PLANT_EXTENT <= gy <= PLANT_EXTENT && p.x
            == #[trigger] grid_tick(gx) && p.y == #[trigger] grid_tick(gy)
}

/// The coordinate, in ticks, of a grid line given in world units.
pub open spec fn grid_tick(g: int) -> int {
    g * UNIT
}

/// `a` comes before `b` in the order in which the grid is walked: column by
/// column, and upward within a column.
pub open spec fn planted_before(a: Position, b: Position) -> bool {
    a.x < b.x || (a.x == b.x && a.y < b.y)
}

/// What holds of a freshly planted node: it is live, sits on the planting
/// grid, and is of a kind that the die can roll.
pub open spec fn freshly_planted(node: ResourceNode) -> bool {
    &&& !node.consumed
    &&& on_plant_grid(node.position)
    &&& node.resource.0 != NaturalResourceType::Water
}

/// The position of the grid point `(gx, gy)`, given in world units.
pub fn grid_position(gx: i64, gy: i64) -> (position: Position)
    requires
        -PLANT_EXTENT <= gx <= PLANT_EXTENT,
        -PLANT_EXTENT <= gy <= PLANT_EXTENT,
    ensures
        position.x == grid_tick(gx as int),
        position.y == grid_tick(gy as int),
        on_plant_grid(position),
        position.within(WORLD_LIMIT as int),
{
    Position { x: gx * UNIT, y: gy * UNIT }
}

/// Scatters resource nodes over the planting grid: every grid point gets a
/// node with odds of one in `PLANT_ODDS`, of a kind rolled for it.
///
/// The nodes that were there stay, in place. The new ones follow them in the
/// order in which the grid is walked, so no two of them share a position.
pub fn plant_resources(nodes: &mut Vec<ResourceNode>, rng: &mut rand::rngs::StdRng)
    ensures
        old(nodes)@.len() <= final(nodes)@.len(),
        final(nodes)@.subrange(0, old(nodes)@.len() as int) == old(nodes)@,
        forall|k: int|
            old(nodes)@.len() <= k < final(nodes)@.len() ==> freshly_planted(
                #[trigger] final(nodes)@[k],
            ),
        forall|j: int, k: int|
            old(nodes)@.len() <= j < k < final(nodes)@.len() ==> planted_before(
                (#[trigger] final(nodes)@[j]).position,
                (#[trigger] final(nodes)@[k]).position,
            ),
        nodes_wf(old(nodes)@) ==> nodes_wf(final(nodes)@),
        consumed_count(final(nodes)@) == consumed_count(old(nodes)@),
{
    let ghost before = nodes@;
    let mut gx: i64 = -PLANT_EXTENT;
    while gx <= PLANT_EXTENT
        invariant
            -PLANT_EXTENT <= gx <= PLANT_EXTENT + 1,
            before.len() <= nodes@.len(),
            nodes@.subrange(0, before.len() as int) == before,
            forall|k: int| before.len() <= k < nodes@.len() ==> freshly_planted(#[trigger] nodes@[k]),
            forall|k: int|
                before.len() <= k < nodes@.len() ==> (#[trigger] nodes@[k]).position.x < gx * UNIT,
            forall|j: int, k: int|
                before.len() <= j < k < nodes@.len() ==> planted_before(
                    (#[trigger] nodes@[j]).position,
                    (#[trigger] nodes@[k]).position,
                ),
            nodes_wf(before) ==> nodes_wf(nodes@),
            consumed_count(nodes@) == consumed_count(before),
        decreases PLANT_EXTENT + 1 - gx,
    {
        let mut gy: i64 = -PLANT_EXTENT;
        while gy <= PLANT_EXTENT
            invariant
                -PLANT_EXTENT <= gx <= PLANT_EXTENT,
                -PLANT_EXTENT <= gy <= PLANT_EXTENT + 1,
                before.len() <= nodes@.len(),
                nodes@.subrange(0, before.len() as int) == before,
                forall|k: int|
                    before.len() <= k < nodes@.len() ==> freshly_planted(#[trigger] nodes@[k]),
                forall|k: int|
                    before.len() <= k < nodes@.len() ==> ((#[trigger] nodes@[k]).position.x < gx
                        * UNIT || (nodes@[k].position.x == gx * UNIT && nodes@[k].position.y < gy
                        * UNIT)),
                forall|j: int, k: int|
                    before.len() <= j < k < nodes@.len() ==> planted_before(
                        (#[trigger] nodes@[j]).position,
                        (#[trigger] nodes@[k]).position,
                    ),
                nodes_wf(before) ==> nodes_wf(nodes@),
                consumed_count(nodes@) == consumed_count(before),
            decreases PLANT_EXTENT + 1 - gy,
        {
            let drawn = if draw_ratio(rng, 1, PLANT_ODDS) {
                Some(NaturalResourceType::pick(rng))
            } else {
                None
            };
            let ghost prior = nodes@;
            plant_point(nodes, gx, gy, drawn);
            proof {
                if drawn is Some {
                    let node = nodes@[prior.len() as int];
                    assert(node.position.x == grid_tick(gx as int) && node.position.y == grid_tick(
                        gy as int,
                    ));
                    assert(on_plant_grid(node.position));
                    assert(nodes@.subrange(0, before.len() as int) =~= prior.subrange(
                        0,
                        before.len() as int,
                    ));
                    lemma_consumed_push(prior, node);
                }
            }
            gy = gy + 1;
        }
        gx = gx + 1;
    }
}

/// The node that sprouts at the grid point `(gx, gy)`: live, and of the
/// kind drawn for it.
pub open spec fn sprout(gx: int, gy: int, kind: NaturalResourceType) -> ResourceNode {
    ResourceNode {
        resource: NaturalResource(kind),
        position: Position { x: grid_tick(gx) as i64, y: grid_tick(gy) as i64 },
        consumed: false,
    }
}

/// What the draw for the grid point `(gx, gy)` makes of the nodes. Where
/// nothing was drawn they stay as they were; where a kind was drawn, a node
/// of that kind sprouts at the grid point and follows them.
pub open spec fn planted_at(
    nodes: Seq<ResourceNode>,
    gx: int,
    gy: int,
    drawn: Option<NaturalResourceType>,
) -> Seq<ResourceNode> {
    match drawn {
        Some(kind) => nodes.push(sprout(gx, gy, kind)),
        None => nodes,
    }
}

/// Plants what was drawn for the grid point `(gx, gy)`, given in world
/// units: nothing, or a live node of the kind drawn.
pub fn plant_point(
    nodes: &mut Vec<ResourceNode>,
    gx: i64,
    gy: i64,
    drawn: Option<NaturalResourceType>,
)
    requires
        -PLANT_EXTENT <= gx <= PLANT_EXTENT,
        -PLANT_EXTENT <= gy <= PLANT_EXTENT,
    ensures
        final(nodes)@ == planted_at(old(nodes)@, gx as int, gy as int, drawn),
        drawn matches Some(kind) ==> final(nodes)@[old(nodes)@.len() as int].wf(),
{
    match drawn {
        Some(kind) => {
            let position = grid_position(gx, gy);
            nodes.push(ResourceNode { resource: NaturalResource(kind), position, consumed: false });
        },
        None => {},
    }
}

/// The count of consumed nodes among the first `n` depends on those alone.
pub proof fn lemma_consumed_upto_agrees(a: Seq<ResourceNode>, b: Seq<ResourceNode>, n: nat)
    requires
        n <= a.len(),
        n <= b.len(),
        forall|k: int| 0 <= k < n ==> a[k].consumed == b[k].consumed,
    ensures
        consumed_upto(a, n) == consumed_upto(b, n),
    decreases n,
{
    if n > 0 {
        lemma_consumed_upto_agrees(a, b, (n - 1) as nat);
    }
}

/// A new node adds itself to the count of consumed nodes if it is consumed.
pub proof fn lemma_consumed_push(nodes: Seq<ResourceNode>, node: ResourceNode)
    ensures
        consumed_count(nodes.push(node)) == consumed_count(nodes) + if node.consumed {
            1nat
        } else {
            0nat
        },
{
    lemma_consumed_upto_agrees(nodes, nodes.push(node), nodes.len());
}

/// No more nodes are consumed than there are.
pub proof fn lemma_consumed_at_most_len(nodes: Seq<ResourceNode>, n: nat)
    requires
        n <= nodes.len(),
    ensures
        consumed_upto(nodes, n) <= n,
    decreases n,
{
    if n > 0 {
        lemma_consumed_at_most_len(nodes, (n - 1) as nat);
    }
}

} // verus!
