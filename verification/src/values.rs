//! What holds of the table that the compositor builds: how the value of a
//! node follows from what it carries and from the value of its parent.

use crate::fixed::lemma_product_by_unit;
use crate::fixed::product;
use crate::fixed::UNIT;
use crate::hierarchy::below;
use crate::hierarchy::below_carrier;
use crate::hierarchy::child_of;
use crate::hierarchy::children;
use crate::hierarchy::drain;
use crate::hierarchy::effective_opacities;
use crate::hierarchy::factor;
use crate::hierarchy::handed_down;
use crate::hierarchy::lemma_pending_insert;
use crate::hierarchy::lemma_position;
use crate::hierarchy::own;
use crate::hierarchy::pending;
use crate::hierarchy::sweep;
use crate::hierarchy::walks_down;
use crate::hierarchy::Node;
use crate::reach::descends;
use crate::reach::extends;
use crate::reach::lemma_child_of_carrier_is_below;
use crate::reach::lemma_descent_walks;
use crate::reach::lemma_entries_are_reachable;
use crate::reach::reachable;
use bevy::ecs::entity::Entity;
use vstd::prelude::*;

verus! {

/// Whether `value` is what `parent`, with the value that `table` gives it,
/// hands down to its child `child`.
pub open spec fn handed_from(
    nodes: Seq<Node>,
    table: Map<Entity, i64>,
    parent: Entity,
    child: Entity,
    value: i64,
) -> bool {
    &&& table.contains_key(parent)
    &&& child_of(nodes, parent, child)
    &&& value == product(table[parent] as int, factor(nodes, child) as int)
}

/// Whether `value` is what one of the parents of `entity` in `table` hands
/// down to it, or `entity` lies below no node that carries an opacity and
/// `value` is the opacity that it carries itself.
pub open spec fn placed(
    nodes: Seq<Node>,
    table: Map<Entity, i64>,
    entity: Entity,
    value: i64,
) -> bool {
    (exists|parent: Entity| #[trigger] handed_from(nodes, table, parent, entity, value)) || (own(
        nodes,
        entity,
    ) == Some(value) && !below_carrier(nodes, entity))
}

/// Whether the value of every node in `table` is placed.
pub open spec fn all_placed(nodes: Seq<Node>, table: Map<Entity, i64>) -> bool {
    forall|entity: Entity| #[trigger]
        table.contains_key(entity) ==> placed(nodes, table, entity, table[entity])
}

/// A value that is placed stays so when the table grows.
proof fn lemma_placed_later(
    nodes: Seq<Node>,
    table: Map<Entity, i64>,
    later: Map<Entity, i64>,
    entity: Entity,
    value: i64,
)
    requires
        placed(nodes, table, entity, value),
        extends(table, later),
    ensures
        placed(nodes, later, entity, value),
{
    if !(own(nodes, entity) == Some(value) && !below_carrier(nodes, entity)) {
        let parent = choose|parent: Entity| #[trigger]
            handed_from(nodes, table, parent, entity, value);
        assert(handed_from(nodes, later, parent, entity, value));
    }
}

/// Working off a stack of values that are placed keeps every value of the
/// table placed.
proof fn lemma_drain_placed(
    nodes: Seq<Node>,
    table: Map<Entity, i64>,
    stack: Seq<(Entity, i64)>,
)
    requires
        all_placed(nodes, table),
        forall|j: int|
            0 <= j < stack.len() ==> placed(nodes, table, (#[trigger] stack[j]).0, stack[j].1),
    ensures
        all_placed(nodes, drain(nodes, table, stack)),
    decreases pending(nodes, table), stack.len(),
{
    if stack.len() > 0 {
        let entity = stack.last().0;
        let effective = stack.last().1;
        let rest = stack.drop_last();
        if table.contains_key(entity) {
            assert forall|j: int| 0 <= j < rest.len() implies placed(
                nodes,
                table,
                (#[trigger] rest[j]).0,
                rest[j].1,
            ) by {}
            lemma_drain_placed(nodes, table, rest);
        } else {
            lemma_pending_insert(nodes, table, entity, effective);
            let kids = children(nodes, entity);
            let more = rest + handed_down(nodes, effective, kids);
            let grown = table.insert(entity, effective);
            assert forall|other: Entity| #[trigger] grown.contains_key(other) implies placed(
                nodes,
                grown,
                other,
                grown[other],
            ) by {
                if other == entity {
                    lemma_placed_later(nodes, table, grown, entity, effective);
                } else {
                    lemma_placed_later(nodes, table, grown, other, table[other]);
                }
            }
            assert forall|j: int| 0 <= j < more.len() implies placed(
                nodes,
                grown,
                (#[trigger] more[j]).0,
                more[j].1,
            ) by {
                if j >= rest.len() {
                    assert(handed_from(nodes, grown, entity, more[j].0, more[j].1));
                } else {
                    lemma_placed_later(nodes, table, grown, stack[j].0, stack[j].1);
                }
            }
            lemma_drain_placed(nodes, grown, more);
        }
    }
}

/// Looking at the rest of the entries keeps every value of the table
/// placed.
proof fn lemma_sweep_placed(nodes: Seq<Node>, table: Map<Entity, i64>, from: int)
    requires
        all_placed(nodes, table),
    ensures
        all_placed(nodes, sweep(nodes, table, from)),
    decreases nodes.len() - from,
{
    if 0 <= from < nodes.len() {
        let entity = nodes[from].entity;
        match own(nodes, entity) {
            Some(opacity) => {
                if table.contains_key(entity) || below_carrier(nodes, entity) {
                    lemma_sweep_placed(nodes, table, from + 1);
                } else {
                    let start = seq![(entity, opacity)];
                    lemma_drain_placed(nodes, table, start);
                    lemma_sweep_placed(nodes, drain(nodes, table, start), from + 1);
                }
            },
            None => {
                lemma_sweep_placed(nodes, table, from + 1);
            },
        }
    }
}

/// The value of every node in the table is the product of the value of one
/// of its parents in the table and what the node carries itself (`UNIT`
/// where it carries none), or the node lies below no node that carries an
/// opacity and its value is the opacity that it carries.
pub proof fn lemma_entries_are_placed(nodes: Seq<Node>, entity: Entity)
    requires
        effective_opacities(nodes).contains_key(entity),
    ensures
        placed(nodes, effective_opacities(nodes), entity, effective_opacities(nodes)[entity]),
{
    lemma_sweep_placed(nodes, Map::empty(), 0);
}

/// A child of a node that carries an opacity or lies below a node that does
/// lies below a node that carries an opacity.
pub proof fn lemma_child_of_reachable_is_below(nodes: Seq<Node>, parent: Entity, child: Entity)
    requires
        reachable(nodes, parent),
        child_of(nodes, parent, child),
    ensures
        below_carrier(nodes, child),
{
    let path = choose|path: Seq<Entity>| #[trigger] descends(nodes, path) && path.last() == parent;
    lemma_descent_walks(nodes, path);
    let upper = path[0];
    let longer = path.push(child);
    assert(longer.drop_last() == path);
    assert(walks_down(nodes, longer) && longer.len() >= 2 && longer[0] == upper
        && longer.last() == child);
    assert(below(nodes, upper, child));
}

/// Whether no node is a child of two nodes.
pub open spec fn single_parents(nodes: Seq<Node>) -> bool {
    forall|parent: Entity, other: Entity, child: Entity|
        #[trigger] child_of(nodes, parent, child) && #[trigger] child_of(nodes, other, child)
            ==> parent == other
}

/// In a hierarchy where no node has two parents, in whatever order its
/// nodes are listed, the value of a node whose parent is in the table is
/// the product of the parent's value and what the node carries itself
/// (`UNIT` where it carries none), and the value of a node without a parent
/// in the table is the opacity that it carries.
pub proof fn lemma_values_follow_the_parent(nodes: Seq<Node>, entity: Entity)
    requires
        single_parents(nodes),
        effective_opacities(nodes).contains_key(entity),
    ensures
        forall|parent: Entity|
            #[trigger] effective_opacities(nodes).contains_key(parent) && child_of(
                nodes,
                parent,
                entity,
            ) ==> effective_opacities(nodes)[entity] == product(
                effective_opacities(nodes)[parent] as int,
                factor(nodes, entity) as int,
            ),
        (forall|parent: Entity| #[trigger]
            effective_opacities(nodes).contains_key(parent) ==> !child_of(nodes, parent, entity))
            ==> own(nodes, entity) == Some(effective_opacities(nodes)[entity]),
{
    let table = effective_opacities(nodes);
    lemma_entries_are_placed(nodes, entity);
    if own(nodes, entity) == Some(table[entity]) && !below_carrier(nodes, entity) {
        assert forall|parent: Entity|
            #[trigger] table.contains_key(parent) && child_of(
                nodes,
                parent,
                entity,
            ) implies false by {
            lemma_entries_are_reachable(nodes, parent);
            lemma_child_of_reachable_is_below(nodes, parent, entity);
        }
    }
}

/// Where a node in the table has two parents in it, its value is what one
/// of them hands down; a node in the table that carries no opacity has the
/// value of one of its parents in the table.
pub proof fn lemma_value_comes_from_a_parent(nodes: Seq<Node>, entity: Entity, parent: Entity)
    requires
        effective_opacities(nodes).contains_key(entity),
        effective_opacities(nodes).contains_key(parent),
        child_of(nodes, parent, entity),
    ensures
        exists|giver: Entity| #[trigger]
            handed_from(
                nodes,
                effective_opacities(nodes),
                giver,
                entity,
                effective_opacities(nodes)[entity],
            ),
        own(nodes, entity) is None ==> exists|giver: Entity| #[trigger]
            effective_opacities(nodes).contains_key(giver) && child_of(nodes, giver, entity)
                && effective_opacities(nodes)[entity] == effective_opacities(nodes)[giver],
{
    let table = effective_opacities(nodes);
    lemma_entries_are_placed(nodes, entity);
    lemma_entries_are_reachable(nodes, parent);
    lemma_child_of_reachable_is_below(nodes, parent, entity);
    let giver = choose|giver: Entity| #[trigger]
        handed_from(nodes, table, giver, entity, table[entity]);
    if own(nodes, entity) is None {
        lemma_product_by_unit(table[giver]);
    }
}

/// A node that carries the opacity `a`, its child that carries `b`, and
/// the child's child that carries none, whichever of the first two is
/// listed first: the first gets `a`, the second the product of `a` and `b`,
/// the third the product of that and `UNIT`, which is the same.
pub proof fn lemma_chain(
    nodes: Seq<Node>,
    root: Entity,
    child: Entity,
    grandchild: Entity,
    a: i64,
    b: i64,
)
    requires
        nodes.len() == 2,
        (nodes[0].entity == root && nodes[1].entity == child) || (nodes[0].entity == child
            && nodes[1].entity == root),
        own(nodes, root) == Some(a),
        own(nodes, child) == Some(b),
        children(nodes, root) == seq![child],
        children(nodes, child) == seq![grandchild],
        root != child,
        root != grandchild,
        child != grandchild,
    ensures
        effective_opacities(nodes).dom() == set![root, child, grandchild],
        effective_opacities(nodes)[root] == a,
        effective_opacities(nodes)[child] == product(a as int, b as int),
        effective_opacities(nodes)[grandchild] == product(
            product(a as int, b as int),
            UNIT as int,
        ),
        effective_opacities(nodes)[grandchild] == effective_opacities(nodes)[child],
{
    lemma_position(nodes, root);
    lemma_position(nodes, child);
    lemma_position(nodes, grandchild);
    assert(child_of(nodes, root, child)) by {
        assert(seq![child][0] == child);
    }
    lemma_child_of_carrier_is_below(nodes, root, child);
    assert(!below_carrier(nodes, root)) by {
        if below_carrier(nodes, root) {
            let upper = choose|upper: Entity|
                own(nodes, upper) is Some && #[trigger] below(nodes, upper, root);
            let path = choose|path: Seq<Entity>| #[trigger]
                walks_down(nodes, path) && path.len() >= 2 && path[0] == upper && path.last()
                    == root;
            let parent = path.drop_last().last();
            lemma_position(nodes, parent);
        }
    }
    let ab = product(a as int, b as int) as i64;
    let abu = product(ab as int, UNIT as int) as i64;
    lemma_product_by_unit(ab);
    let none = Seq::<(Entity, i64)>::empty();
    let t0 = Map::<Entity, i64>::empty();
    let t1 = t0.insert(root, a);
    let t2 = t1.insert(child, ab);
    let t3 = t2.insert(grandchild, abu);
    let s1 = seq![(root, a)];
    let s2 = seq![(child, ab)];
    let s3 = seq![(grandchild, abu)];
    assert(s1.drop_last() + handed_down(nodes, a, children(nodes, root)) == s2);
    assert(s2.drop_last() + handed_down(nodes, ab, children(nodes, child)) == s3);
    assert(s3.drop_last() + handed_down(nodes, abu, children(nodes, grandchild)) == none);
    assert(drain(nodes, t3, none) == t3);
    assert(drain(nodes, t2, s3) == t3);
    assert(drain(nodes, t1, s2) == t3);
    assert(sweep(nodes, t3, 2) == t3);
    if nodes[0].entity == root {
        assert(sweep(nodes, t3, 1) == t3);
    } else {
        assert(sweep(nodes, t0, 1) == t3);
    }
}

} // verus!
