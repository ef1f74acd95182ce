//! The hierarchical compositor: from the opacity that each node carries to
//! the effective opacity of every node below a node that carries one.

use crate::fixed::multiply;
use crate::fixed::product;
use crate::fixed::UNIT;
use crate::reach::lemma_lower_is_below;
use crate::table::EntityIndex;
use crate::table::OpacityMap;
use bevy::ecs::entity::Entity;
use vstd::prelude::*;

verus! {

/// What the host's scene graph says of one node at this frame.
#[derive(Debug)]
pub struct Node {
    /// The node.
    pub entity: Entity,
    /// The current value of the opacity that the node carries, if it
    /// carries one.
    pub opacity: Option<i64>,
    /// The node's children, in the host's order.
    pub children: Vec<Entity>,
}

/// The place of the first entry of `nodes` that describes `entity`. A later
/// entry for the same node is not looked at.
pub open spec fn position(nodes: Seq<Node>, entity: Entity) -> Option<int>
    decreases nodes.len(),
{
    if nodes.len() == 0 {
        None
    } else {
        match position(nodes.drop_last(), entity) {
            Some(i) => Some(i),
            None => if nodes.last().entity == entity {
                Some(nodes.len() - 1)
            } else {
                None
            },
        }
    }
}

/// The opacity that `entity` carries itself, if `nodes` gives it one.
pub open spec fn own(nodes: Seq<Node>, entity: Entity) -> Option<i64> {
    match position(nodes, entity) {
        Some(i) => nodes[i].opacity,
        None => None,
    }
}

/// The children of `entity`; none where `nodes` does not describe it.
pub open spec fn children(nodes: Seq<Node>, entity: Entity) -> Seq<Entity> {
    match position(nodes, entity) {
        Some(i) => nodes[i].children@,
        None => Seq::empty(),
    }
}

/// What `entity` contributes to the opacity handed down through it: its
/// own opacity, or `UNIT` where it carries none.
pub open spec fn factor(nodes: Seq<Node>, entity: Entity) -> i64 {
    match own(nodes, entity) {
        Some(opacity) => opacity,
        None => UNIT,
    }
}

/// Whether `child` is a child of `parent`.
pub open spec fn child_of(nodes: Seq<Node>, parent: Entity, child: Entity) -> bool {
    children(nodes, parent).contains(child)
}

/// Whether `path` goes on from each node to one of its children.
pub open spec fn walks_down(nodes: Seq<Node>, path: Seq<Entity>) -> bool
    decreases path.len(),
{
    if path.len() == 0 {
        false
    } else if path.len() == 1 {
        true
    } else {
        walks_down(nodes, path.drop_last()) && child_of(
            nodes,
            path.drop_last().last(),
            path.last(),
        )
    }
}

/// Whether `lower` is a child of `upper`, or a child of a child, and so on.
pub open spec fn below(nodes: Seq<Node>, upper: Entity, lower: Entity) -> bool {
    exists|path: Seq<Entity>| #[trigger]
        walks_down(nodes, path) && path.len() >= 2 && path[0] == upper && path.last() == lower
}

/// Whether `entity` lies below a node that carries an opacity.
pub open spec fn below_carrier(nodes: Seq<Node>, entity: Entity) -> bool {
    exists|upper: Entity| own(nodes, upper) is Some && #[trigger] below(nodes, upper, entity)
}

/// The work that a node with the effective opacity `effective` leaves for
/// its children `kids`: each child with the opacity handed down to it.
pub open spec fn handed_down(nodes: Seq<Node>, effective: i64, kids: Seq<Entity>) -> Seq<
    (Entity, i64),
> {
    Seq::new(
        kids.len(),
        |k: int| (kids[k], product(effective as int, factor(nodes, kids[k]) as int) as i64),
    )
}

/// How many entries of `nodes` describe a node that `table` does not hold.
pub open spec fn pending(nodes: Seq<Node>, table: Map<Entity, i64>) -> nat
    decreases nodes.len(),
{
    if nodes.len() == 0 {
        0
    } else if table.contains_key(nodes.last().entity) {
        pending(nodes.drop_last(), table)
    } else {
        pending(nodes.drop_last(), table) + 1
    }
}

/// What `position` finds is the first entry for the entity, and where it
/// finds nothing there is no entry.
pub proof fn lemma_position(nodes: Seq<Node>, entity: Entity)
    ensures
        match position(nodes, entity) {
            Some(i) => 0 <= i < nodes.len() && nodes[i].entity == entity && forall|j: int|
                0 <= j < i ==> (#[trigger] nodes[j]).entity != entity,
            None => forall|j: int| 0 <= j < nodes.len() ==> (#[trigger] nodes[j]).entity != entity,
        },
    decreases nodes.len(),
{
    if nodes.len() > 0 {
        lemma_position(nodes.drop_last(), entity);
        match position(nodes.drop_last(), entity) {
            Some(i) => {
                assert forall|j: int| 0 <= j < i implies (#[trigger] nodes[j]).entity != entity by {
                    assert(nodes.drop_last()[j].entity != entity);
                }
            },
            None => {
                assert forall|j: int| 0 <= j < nodes.len() - 1 implies (#[trigger] nodes[j]).entity
                    != entity by {
                    assert(nodes.drop_last()[j].entity != entity);
                }
            },
        }
    }
}

/// Recording an entity leaves no more entries pending than before, and
/// fewer where `nodes` describes the entity and it was not recorded yet.
pub proof fn lemma_pending_insert(
    nodes: Seq<Node>,
    table: Map<Entity, i64>,
    entity: Entity,
    effective: i64,
)
    ensures
        pending(nodes, table.insert(entity, effective)) <= pending(nodes, table),
        position(nodes, entity) is Some && !table.contains_key(entity) ==> pending(
            nodes,
            table.insert(entity, effective),
        ) < pending(nodes, table),
    decreases nodes.len(),
{
    if nodes.len() > 0 {
        lemma_pending_insert(nodes.drop_last(), table, entity, effective);
    }
}

/// The table after the work on `stack` is done, taken from its end: an
/// entry for a node that the table already holds is dropped, so that the
/// first value recorded for a node stays; any other is recorded, and leaves
/// the node's children as further work.
pub open spec fn drain(nodes: Seq<Node>, table: Map<Entity, i64>, stack: Seq<(Entity, i64)>) -> Map<
    Entity,
    i64,
>
    decreases pending(nodes, table), stack.len(),
{
    if stack.len() == 0 {
        table
    } else {
        let entity = stack.last().0;
        let effective = stack.last().1;
        if table.contains_key(entity) {
            drain(nodes, table, stack.drop_last())
        } else {
            proof {
                lemma_pending_insert(nodes, table, entity, effective);
            }
            drain(
                nodes,
                table.insert(entity, effective),
                stack.drop_last() + handed_down(nodes, effective, children(nodes, entity)),
            )
        }
    }
}

/// The table after the entries of `nodes` from place `from` on were looked
/// at in their order: each that carries an opacity, lies below no node that
/// carries one and is not yet in the table starts a walk down from it, with
/// its own opacity. A node that carries an opacity and lies below another
/// that does gets its value from above, in whatever order the two are
/// listed.
pub open spec fn sweep(nodes: Seq<Node>, table: Map<Entity, i64>, from: int) -> Map<Entity, i64>
    decreases nodes.len() - from,
{
    if from < 0 || from >= nodes.len() {
        table
    } else {
        let entity = nodes[from].entity;
        let visited = match own(nodes, entity) {
            Some(opacity) => if table.contains_key(entity) || below_carrier(nodes, entity) {
                table
            } else {
                drain(nodes, table, seq![(entity, opacity)])
            },
            None => table,
        };
        sweep(nodes, visited, from + 1)
    }
}

/// The effective opacity of every node that `nodes` places at or below a
/// node that carries an opacity.
pub open spec fn effective_opacities(nodes: Seq<Node>) -> Map<Entity, i64> {
    sweep(nodes, Map::empty(), 0)
}

/// What the first `upto` entries of `nodes` that carry an opacity hand
/// down to their children.
pub open spec fn seeds(nodes: Seq<Node>, upto: int) -> Seq<(Entity, i64)>
    decreases upto,
{
    if upto <= 0 {
        Seq::empty()
    } else {
        let entity = nodes[upto - 1].entity;
        seeds(nodes, upto - 1) + match own(nodes, entity) {
            Some(opacity) => handed_down(nodes, opacity, children(nodes, entity)),
            None => Seq::empty(),
        }
    }
}

/// The table after a walk down from the children of every node that carries
/// an opacity. Only the nodes that it holds matter: they are the nodes that
/// lie below such a node.
pub open spec fn lower(nodes: Seq<Node>) -> Map<Entity, i64> {
    drain(nodes, Map::empty(), seeds(nodes, nodes.len() as int))
}

/// Whether `index` gives for every entity its position in `nodes`.
pub open spec fn index_matches(index: Map<Entity, usize>, nodes: Seq<Node>) -> bool {
    forall|entity: Entity|
        (#[trigger] index.contains_key(entity) <==> position(nodes, entity) is Some) && (
        index.contains_key(entity) ==> position(nodes, entity) == Some(index[entity] as int))
}

/// Records the position of every entity that `nodes` describes.
fn index_nodes(nodes: &Vec<Node>) -> (index: EntityIndex)
    ensures
        index_matches(index@, nodes@),
{
    let mut index = EntityIndex::new();
    let mut i: usize = 0;
    while i < nodes.len()
        invariant
            i <= nodes.len(),
            index_matches(index@, nodes@.take(i as int)),
        decreases nodes.len() - i,
    {
        let entity = nodes[i].entity;
        let known = index.get(entity);
        if known.is_none() {
            index.insert(entity, i);
        }
        proof {
            let seen = nodes@.take(i as int);
            let next = nodes@.take(i + 1);
            assert(next.drop_last() == seen);
            assert forall|other: Entity|
                (#[trigger] index@.contains_key(other) <==> position(next, other) is Some) && (
                index@.contains_key(other) ==> position(next, other) == Some(
                    index@[other] as int,
                )) by {}
        }
        i += 1;
    }
    proof {
        assert(nodes@.take(i as int) == nodes@);
    }
    index
}

/// The opacity that `entity` carries itself, looked up through the index.
fn own_opacity(nodes: &Vec<Node>, index: &EntityIndex, entity: Entity) -> (r: Option<i64>)
    requires
        index_matches(index@, nodes@),
    ensures
        r == own(nodes@, entity),
{
    proof {
        lemma_position(nodes@, entity);
    }
    match index.get(entity) {
        Some(i) => nodes[i].opacity,
        None => None,
    }
}

/// Puts the children of the node at place `parent` on the stack, each with
/// the opacity handed down to it.
fn push_children(
    stack: &mut Vec<(Entity, i64)>,
    nodes: &Vec<Node>,
    index: &EntityIndex,
    parent: usize,
    effective: i64,
)
    requires
        index_matches(index@, nodes@),
        parent < nodes.len(),
    ensures
        final(stack)@ == old(stack)@ + handed_down(
            nodes@,
            effective,
            nodes@[parent as int].children@,
        ),
{
    let kids = &nodes[parent].children;
    let mut k: usize = 0;
    while k < kids.len()
        invariant
            k <= kids.len(),
            index_matches(index@, nodes@),
            kids@ == nodes@[parent as int].children@,
            stack@ == old(stack)@ + handed_down(nodes@, effective, kids@.take(k as int)),
        decreases kids.len() - k,
    {
        let child = kids[k];
        let handed = match own_opacity(nodes, index, child) {
            Some(opacity) => multiply(effective, opacity),
            None => multiply(effective, UNIT),
        };
        stack.push((child, handed));
        k += 1;
    }
}

/// Walks down from the work on `stack` until none is left.
fn drain_stack(
    map: &mut OpacityMap,
    stack: &mut Vec<(Entity, i64)>,
    nodes: &Vec<Node>,
    index: &EntityIndex,
)
    requires
        index_matches(index@, nodes@),
    ensures
        final(map)@ == drain(nodes@, old(map)@, old(stack)@),
        final(stack)@.len() == 0,
{
    while stack.len() > 0
        invariant
            index_matches(index@, nodes@),
            drain(nodes@, map@, stack@) == drain(nodes@, old(map)@, old(stack)@),
        decreases pending(nodes@, map@), stack@.len(),
    {
        let ghost table = map@;
        let top = stack.pop();
        let (entity, effective) = top.unwrap();
        if !map.contains_key(entity) {
            map.insert(entity, effective);
            proof {
                lemma_position(nodes@, entity);
                lemma_pending_insert(nodes@, table, entity, effective);
            }
            match index.get(entity) {
                Some(parent) => {
                    push_children(stack, nodes, index, parent, effective);
                },
                None => {},
            }
        }
    }
}

/// Finds the nodes that lie below a node that carries an opacity, by a walk
/// down from the children of all such nodes.
fn nodes_below_carriers(nodes: &Vec<Node>, index: &EntityIndex) -> (found: OpacityMap)
    requires
        index_matches(index@, nodes@),
    ensures
        forall|entity: Entity| #[trigger]
            found@.contains_key(entity) <==> below_carrier(nodes@, entity),
{
    let mut found = OpacityMap::new();
    let mut stack: Vec<(Entity, i64)> = Vec::new();
    let mut i: usize = 0;
    while i < nodes.len()
        invariant
            i <= nodes.len(),
            index_matches(index@, nodes@),
            stack@ == seeds(nodes@, i as int),
        decreases nodes.len() - i,
    {
        let entity = nodes[i].entity;
        proof {
            lemma_position(nodes@, entity);
        }
        match index.get(entity) {
            Some(at) => {
                match nodes[at].opacity {
                    Some(opacity) => {
                        push_children(&mut stack, nodes, index, at, opacity);
                    },
                    None => {},
                }
            },
            None => {},
        }
        i += 1;
    }
    drain_stack(&mut found, &mut stack, nodes, index);
    proof {
        assert(found@ == lower(nodes@));
        lemma_lower_is_below(nodes@);
    }
    found
}

/// Rebuilds the table of effective opacities from the hierarchy of this
/// frame. What the table held before is discarded, so that a second rebuild
/// from the same hierarchy leaves the same table. Every entry of `nodes`
/// that carries an opacity and lies below no node that carries one starts a
/// walk down its subtree, taken from an explicit stack: the node gets its
/// own opacity, each node below it the product of its parent's effective
/// opacity and what it carries itself (`UNIT` where it carries none). A
/// node that is reached a second time, as a node with two parents is,
/// keeps the value it got first.
pub fn calculate_opacity(map: &mut OpacityMap, nodes: &Vec<Node>)
    ensures
        final(map)@ == effective_opacities(nodes@),
{
    map.clear();
    let index = index_nodes(nodes);
    let found = nodes_below_carriers(nodes, &index);
    let mut stack: Vec<(Entity, i64)> = Vec::new();
    let mut i: usize = 0;
    while i < nodes.len()
        invariant
            i <= nodes.len(),
            index_matches(index@, nodes@),
            forall|entity: Entity| #[trigger]
                found@.contains_key(entity) <==> below_carrier(nodes@, entity),
            stack@.len() == 0,
            sweep(nodes@, map@, i as int) == effective_opacities(nodes@),
        decreases nodes.len() - i,
    {
        let entity = nodes[i].entity;
        match own_opacity(nodes, &index, entity) {
            Some(opacity) => {
                if !map.contains_key(entity) && !found.contains_key(entity) {
                    stack.push((entity, opacity));
                    drain_stack(map, &mut stack, nodes, &index);
                }
            },
            None => {},
        }
        i += 1;
    }
}

} // verus!
