//! What holds of the table that the compositor builds: which nodes it
//! holds.

use crate::hierarchy::below;
use crate::hierarchy::below_carrier;
use crate::hierarchy::child_of;
use crate::hierarchy::children;
use crate::hierarchy::drain;
use crate::hierarchy::effective_opacities;
use crate::hierarchy::handed_down;
use crate::hierarchy::lemma_pending_insert;
use crate::hierarchy::lemma_position;
use crate::hierarchy::lower;
use crate::hierarchy::own;
use crate::hierarchy::pending;
use crate::hierarchy::position;
use crate::hierarchy::seeds;
use crate::hierarchy::sweep;
use crate::hierarchy::walks_down;
use crate::hierarchy::Node;
use bevy::ecs::entity::Entity;
use vstd::prelude::*;

verus! {

/// Whether `path` starts at a node that carries an opacity and goes on from
/// each node to one of its children.
pub open spec fn descends(nodes: Seq<Node>, path: Seq<Entity>) -> bool
    decreases path.len(),
{
    if path.len() == 0 {
        false
    } else if path.len() == 1 {
        own(nodes, path[0]) is Some
    } else {
        descends(nodes, path.drop_last()) && children(nodes, path.drop_last().last()).contains(
            path.last(),
        )
    }
}

/// Whether `entity` carries an opacity or lies below a node that does.
pub open spec fn reachable(nodes: Seq<Node>, entity: Entity) -> bool {
    exists|path: Seq<Entity>| #[trigger] descends(nodes, path) && path.last() == entity
}

/// Whether `entity` carries an opacity and lies below no node that does.
pub open spec fn is_top(nodes: Seq<Node>, entity: Entity) -> bool {
    own(nodes, entity) is Some && !below_carrier(nodes, entity)
}

/// Whether `entity` is a node that carries an opacity and lies below no
/// node that does, or lies below such a node.
pub open spec fn under_top(nodes: Seq<Node>, entity: Entity) -> bool {
    exists|path: Seq<Entity>| #[trigger]
        descends(nodes, path) && !below_carrier(nodes, path[0]) && path.last() == entity
}

/// Whether every node that `table` holds is such a node or lies below one.
pub open spec fn holds_under_tops_only(nodes: Seq<Node>, table: Map<Entity, i64>) -> bool {
    forall|entity: Entity| #[trigger] table.contains_key(entity) ==> under_top(nodes, entity)
}

/// A node that carries an opacity is reachable.
pub proof fn lemma_carrier_is_reachable(nodes: Seq<Node>, entity: Entity)
    requires
        own(nodes, entity) is Some,
    ensures
        reachable(nodes, entity),
        !below_carrier(nodes, entity) ==> under_top(nodes, entity),
{
    let path = seq![entity];
    assert(descends(nodes, path) && path.last() == entity && path[0] == entity);
}

/// A child of a reachable node is reachable.
pub proof fn lemma_child_is_reachable(nodes: Seq<Node>, parent: Entity, child: Entity)
    requires
        reachable(nodes, parent),
        children(nodes, parent).contains(child),
    ensures
        reachable(nodes, child),
{
    let path = choose|path: Seq<Entity>| #[trigger] descends(nodes, path) && path.last() == parent;
    let longer = path.push(child);
    assert(longer.drop_last() == path);
    assert(descends(nodes, longer) && longer.last() == child);
}

/// A child of a node under a top node is under that node too.
proof fn lemma_child_is_under_top(nodes: Seq<Node>, parent: Entity, child: Entity)
    requires
        under_top(nodes, parent),
        children(nodes, parent).contains(child),
    ensures
        under_top(nodes, child),
{
    let path = choose|path: Seq<Entity>| #[trigger]
        descends(nodes, path) && !below_carrier(nodes, path[0]) && path.last() == parent;
    let longer = path.push(child);
    assert(longer.drop_last() == path);
    assert(descends(nodes, longer) && !below_carrier(nodes, longer[0]) && longer.last()
        == child);
}

/// Working off a stack of nodes under top nodes brings only such nodes into
/// the table.
proof fn lemma_drain_under_tops(
    nodes: Seq<Node>,
    table: Map<Entity, i64>,
    stack: Seq<(Entity, i64)>,
)
    requires
        holds_under_tops_only(nodes, table),
        forall|j: int| 0 <= j < stack.len() ==> under_top(nodes, (#[trigger] stack[j]).0),
    ensures
        holds_under_tops_only(nodes, drain(nodes, table, stack)),
    decreases pending(nodes, table), stack.len(),
{
    if stack.len() > 0 {
        let entity = stack.last().0;
        let effective = stack.last().1;
        let rest = stack.drop_last();
        assert forall|j: int| 0 <= j < rest.len() implies under_top(
            nodes,
            (#[trigger] rest[j]).0,
        ) by {}
        if table.contains_key(entity) {
            lemma_drain_under_tops(nodes, table, rest);
        } else {
            lemma_pending_insert(nodes, table, entity, effective);
            let kids = children(nodes, entity);
            let more = rest + handed_down(nodes, effective, kids);
            assert forall|j: int| 0 <= j < more.len() implies under_top(
                nodes,
                (#[trigger] more[j]).0,
            ) by {
                if j >= rest.len() {
                    let k = j - rest.len();
                    lemma_child_is_under_top(nodes, entity, kids[k]);
                }
            }
            lemma_drain_under_tops(nodes, table.insert(entity, effective), more);
        }
    }
}

/// Looking at the rest of the entries brings only nodes under top nodes
/// into the table.
proof fn lemma_sweep_under_tops(nodes: Seq<Node>, table: Map<Entity, i64>, from: int)
    requires
        holds_under_tops_only(nodes, table),
    ensures
        holds_under_tops_only(nodes, sweep(nodes, table, from)),
    decreases nodes.len() - from,
{
    if 0 <= from < nodes.len() {
        let entity = nodes[from].entity;
        match own(nodes, entity) {
            Some(opacity) => {
                if table.contains_key(entity) || below_carrier(nodes, entity) {
                    lemma_sweep_under_tops(nodes, table, from + 1);
                } else {
                    lemma_carrier_is_reachable(nodes, entity);
                    let start = seq![(entity, opacity)];
                    lemma_drain_under_tops(nodes, table, start);
                    lemma_sweep_under_tops(nodes, drain(nodes, table, start), from + 1);
                }
            },
            None => {
                lemma_sweep_under_tops(nodes, table, from + 1);
            },
        }
    }
}

/// The table holds no node but those that carry an opacity or lie below a
/// node that does, whatever the shape of the hierarchy.
pub proof fn lemma_entries_are_reachable(nodes: Seq<Node>, entity: Entity)
    requires
        effective_opacities(nodes).contains_key(entity),
    ensures
        reachable(nodes, entity),
{
    lemma_sweep_under_tops(nodes, Map::empty(), 0);
}

/// Whether `entity` is the node of some entry of `stack`.
pub open spec fn awaits(stack: Seq<(Entity, i64)>, entity: Entity) -> bool {
    exists|j: int| 0 <= j < stack.len() && (#[trigger] stack[j]).0 == entity
}

/// Whether every child of a node that `table` holds is held too, or is the
/// node of some entry of `stack`.
pub open spec fn closed_but_for(
    nodes: Seq<Node>,
    table: Map<Entity, i64>,
    stack: Seq<(Entity, i64)>,
) -> bool {
    forall|parent: Entity, child: Entity|
        #[trigger] table.contains_key(parent) && #[trigger] child_of(nodes, parent, child)
            ==> table.contains_key(child) || awaits(stack, child)
}

/// Whether `later` holds all that `table` holds, with the same values.
pub open spec fn extends(table: Map<Entity, i64>, later: Map<Entity, i64>) -> bool {
    forall|entity: Entity| #[trigger]
        table.contains_key(entity) ==> later.contains_key(entity) && later[entity]
            == table[entity]
}

/// Working off the stack leaves a table that holds the children of all
/// that it holds, all that it held before with the same values, and every
/// node of the stack.
pub(crate) proof fn lemma_drain_closed(
    nodes: Seq<Node>,
    table: Map<Entity, i64>,
    stack: Seq<(Entity, i64)>,
)
    requires
        closed_but_for(nodes, table, stack),
    ensures
        closed_but_for(nodes, drain(nodes, table, stack), Seq::empty()),
        extends(table, drain(nodes, table, stack)),
        forall|j: int|
            0 <= j < stack.len() ==> drain(nodes, table, stack).contains_key(
                (#[trigger] stack[j]).0,
            ),
    decreases pending(nodes, table), stack.len(),
{
    if stack.len() == 0 {
        assert forall|parent: Entity, child: Entity|
            #[trigger] table.contains_key(parent) && #[trigger] child_of(
                nodes,
                parent,
                child,
            ) implies table.contains_key(child) || awaits(Seq::empty(), child) by {}
    } else {
        let entity = stack.last().0;
        let effective = stack.last().1;
        let rest = stack.drop_last();
        let top = stack.len() - 1;
        if table.contains_key(entity) {
            assert forall|parent: Entity, child: Entity|
                #[trigger] table.contains_key(parent) && #[trigger] child_of(
                    nodes,
                    parent,
                    child,
                ) implies table.contains_key(child) || awaits(rest, child) by {
                if !table.contains_key(child) {
                    let j = choose|j: int| 0 <= j < stack.len() && (#[trigger] stack[j]).0 == child;
                    assert(rest[j].0 == child);
                }
            }
            lemma_drain_closed(nodes, table, rest);
            let done = drain(nodes, table, rest);
            assert forall|j: int| 0 <= j < stack.len() implies done.contains_key(
                (#[trigger] stack[j]).0,
            ) by {
                if j < top {
                    assert(rest[j] == stack[j]);
                }
            }
        } else {
            lemma_pending_insert(nodes, table, entity, effective);
            let kids = children(nodes, entity);
            let more = rest + handed_down(nodes, effective, kids);
            let grown = table.insert(entity, effective);
            assert forall|parent: Entity, child: Entity|
                #[trigger] grown.contains_key(parent) && #[trigger] child_of(
                    nodes,
                    parent,
                    child,
                ) implies grown.contains_key(child) || awaits(more, child) by {
                if parent == entity {
                    let k = choose|k: int| 0 <= k < kids.len() && kids[k] == child;
                    assert(more[rest.len() + k].0 == child);
                } else {
                    if !table.contains_key(child) {
                        let j = choose|j: int|
                            0 <= j < stack.len() && (#[trigger] stack[j]).0 == child;
                        if j < top {
                            assert(more[j].0 == child);
                        }
                    }
                }
            }
            lemma_drain_closed(nodes, grown, more);
            let done = drain(nodes, grown, more);
            assert(grown.contains_key(entity));
            assert forall|j: int| 0 <= j < stack.len() implies done.contains_key(
                (#[trigger] stack[j]).0,
            ) by {
                if j < top {
                    assert(more[j] == stack[j]);
                }
            }
            assert forall|other: Entity| #[trigger]
                table.contains_key(other) implies done.contains_key(other) && done[other]
                == table[other] by {
                assert(grown.contains_key(other));
            }
        }
    }
}

/// Looking at the rest of the entries leaves a table that holds the
/// children of all that it holds, all that it held before with the same
/// values, and every node that carries an opacity and lies below no node
/// that does.
proof fn lemma_sweep_closed(nodes: Seq<Node>, table: Map<Entity, i64>, from: int)
    requires
        0 <= from <= nodes.len(),
        closed_but_for(nodes, table, Seq::empty()),
        forall|i: int|
            0 <= i < from && is_top(nodes, (#[trigger] nodes[i]).entity) ==> table.contains_key(
                nodes[i].entity,
            ),
    ensures
        closed_but_for(nodes, sweep(nodes, table, from), Seq::empty()),
        extends(table, sweep(nodes, table, from)),
        forall|i: int|
            0 <= i < nodes.len() && is_top(nodes, (#[trigger] nodes[i]).entity) ==> sweep(
                nodes,
                table,
                from,
            ).contains_key(nodes[i].entity),
    decreases nodes.len() - from,
{
    if from < nodes.len() {
        let entity = nodes[from].entity;
        let visited = match own(nodes, entity) {
            Some(opacity) => if table.contains_key(entity) || below_carrier(nodes, entity) {
                table
            } else {
                drain(nodes, table, seq![(entity, opacity)])
            },
            None => table,
        };
        if is_top(nodes, entity) && !table.contains_key(entity) {
            let start = seq![(entity, own(nodes, entity).unwrap())];
            assert forall|parent: Entity, child: Entity|
                #[trigger] table.contains_key(parent) && #[trigger] child_of(
                    nodes,
                    parent,
                    child,
                ) implies table.contains_key(child) || awaits(start, child) by {}
            lemma_drain_closed(nodes, table, start);
        }
        assert forall|i: int|
            0 <= i < from + 1 && is_top(
                nodes,
                (#[trigger] nodes[i]).entity,
            ) implies visited.contains_key(nodes[i].entity) by {}
        lemma_sweep_closed(nodes, visited, from + 1);
        let done = sweep(nodes, visited, from + 1);
        assert forall|other: Entity| #[trigger] table.contains_key(other) implies done.contains_key(
            other,
        ) && done[other] == table[other] by {}
    }
}

/// The table holds every node that carries an opacity and lies below no
/// node that does, and every node below such a node: the end of every path
/// down from it.
pub proof fn lemma_below_tops_are_entries(nodes: Seq<Node>, path: Seq<Entity>)
    requires
        descends(nodes, path),
        !below_carrier(nodes, path[0]),
    ensures
        effective_opacities(nodes).contains_key(path.last()),
    decreases path.len(),
{
    let table = effective_opacities(nodes);
    assert forall|parent: Entity, child: Entity|
        #[trigger] Map::<Entity, i64>::empty().contains_key(parent) && #[trigger] child_of(
            nodes,
            parent,
            child,
        ) implies false by {}
    lemma_sweep_closed(nodes, Map::empty(), 0);
    if path.len() == 1 {
        let entity = path[0];
        lemma_position(nodes, entity);
    } else {
        let parent = path.drop_last().last();
        lemma_below_tops_are_entries(nodes, path.drop_last());
        assert(table.contains_key(parent) && child_of(nodes, parent, path.last()));
    }
}

/// The table holds exactly the nodes that carry an opacity and lie below no
/// node that does, and the nodes below them.
pub proof fn lemma_entries_are_those_under_tops(nodes: Seq<Node>, entity: Entity)
    ensures
        effective_opacities(nodes).contains_key(entity) <==> under_top(nodes, entity),
{
    lemma_sweep_under_tops(nodes, Map::empty(), 0);
    if under_top(nodes, entity) {
        let path = choose|path: Seq<Entity>| #[trigger]
            descends(nodes, path) && !below_carrier(nodes, path[0]) && path.last() == entity;
        lemma_below_tops_are_entries(nodes, path);
    }
}

/// A path down from a node that carries an opacity goes from parent to
/// child, and starts at such a node.
pub(crate) proof fn lemma_descent_walks(nodes: Seq<Node>, path: Seq<Entity>)
    requires
        descends(nodes, path),
    ensures
        walks_down(nodes, path),
        own(nodes, path[0]) is Some,
    decreases path.len(),
{
    if path.len() > 1 {
        lemma_descent_walks(nodes, path.drop_last());
    }
}

/// Whether `depth` grows from every node to each of its children, as a
/// depth can only where no path down leads back to where it began.
pub open spec fn deepens(nodes: Seq<Node>, depth: spec_fn(Entity) -> nat) -> bool {
    forall|parent: Entity, child: Entity| #[trigger]
        child_of(nodes, parent, child) ==> depth(parent) < depth(child)
}

/// The end of a path down lies as deep as its start, and deeper where the
/// path has a step.
proof fn lemma_walk_deepens(nodes: Seq<Node>, depth: spec_fn(Entity) -> nat, path: Seq<Entity>)
    requires
        deepens(nodes, depth),
        walks_down(nodes, path),
    ensures
        depth(path[0]) <= depth(path.last()),
        path.len() >= 2 ==> depth(path[0]) < depth(path.last()),
    decreases path.len(),
{
    if path.len() > 1 {
        lemma_walk_deepens(nodes, depth, path.drop_last());
    }
}

/// The end of a path down from a node under a top node is under that node.
proof fn lemma_walk_stays_under_top(nodes: Seq<Node>, path: Seq<Entity>)
    requires
        walks_down(nodes, path),
        under_top(nodes, path[0]),
    ensures
        under_top(nodes, path.last()),
    decreases path.len(),
{
    if path.len() > 1 {
        lemma_walk_stays_under_top(nodes, path.drop_last());
        lemma_child_is_under_top(nodes, path.drop_last().last(), path.last());
    }
}

/// Without cycles every node that carries an opacity lies below no node
/// that does, or below one of which that holds.
proof fn lemma_carrier_is_under_top(
    nodes: Seq<Node>,
    depth: spec_fn(Entity) -> nat,
    entity: Entity,
)
    requires
        deepens(nodes, depth),
        own(nodes, entity) is Some,
    ensures
        under_top(nodes, entity),
    decreases depth(entity),
{
    if below_carrier(nodes, entity) {
        let upper = choose|upper: Entity|
            own(nodes, upper) is Some && #[trigger] below(nodes, upper, entity);
        let path = choose|path: Seq<Entity>| #[trigger]
            walks_down(nodes, path) && path.len() >= 2 && path[0] == upper && path.last()
                == entity;
        lemma_walk_deepens(nodes, depth, path);
        lemma_carrier_is_under_top(nodes, depth, upper);
        lemma_walk_stays_under_top(nodes, path);
    } else {
        lemma_carrier_is_reachable(nodes, entity);
    }
}

/// In a hierarchy without cycles the table holds exactly the nodes that
/// carry an opacity and the nodes below them.
pub proof fn lemma_entries_are_the_reachable(
    nodes: Seq<Node>,
    depth: spec_fn(Entity) -> nat,
    entity: Entity,
)
    requires
        deepens(nodes, depth),
    ensures
        effective_opacities(nodes).contains_key(entity) <==> reachable(nodes, entity),
{
    lemma_entries_are_those_under_tops(nodes, entity);
    if effective_opacities(nodes).contains_key(entity) {
        lemma_entries_are_reachable(nodes, entity);
    }
    if reachable(nodes, entity) {
        let path = choose|path: Seq<Entity>| #[trigger]
            descends(nodes, path) && path.last() == entity;
        lemma_descent_walks(nodes, path);
        lemma_carrier_is_under_top(nodes, depth, path[0]);
        lemma_walk_stays_under_top(nodes, path);
    }
}

/// A child of a node that carries an opacity lies below such a node.
pub proof fn lemma_child_of_carrier_is_below(nodes: Seq<Node>, parent: Entity, child: Entity)
    requires
        own(nodes, parent) is Some,
        child_of(nodes, parent, child),
    ensures
        below_carrier(nodes, child),
{
    let path = seq![parent, child];
    assert(walks_down(nodes, path.drop_last()));
    assert(walks_down(nodes, path) && path.len() >= 2 && path[0] == parent && path.last()
        == child);
    assert(below(nodes, parent, child));
}

/// A child of a node that lies below a node that carries an opacity lies
/// below that node too.
pub proof fn lemma_child_of_lower_is_below(nodes: Seq<Node>, parent: Entity, child: Entity)
    requires
        below_carrier(nodes, parent),
        child_of(nodes, parent, child),
    ensures
        below_carrier(nodes, child),
{
    let upper = choose|upper: Entity|
        own(nodes, upper) is Some && #[trigger] below(nodes, upper, parent);
    let path = choose|path: Seq<Entity>| #[trigger]
        walks_down(nodes, path) && path.len() >= 2 && path[0] == upper && path.last()
            == parent;
    let longer = path.push(child);
    assert(longer.drop_last() == path);
    assert(walks_down(nodes, longer) && longer.len() >= 2 && longer[0] == upper
        && longer.last() == child);
    assert(below(nodes, upper, child));
}

/// Whether every node that `table` holds lies below a node that carries an
/// opacity.
pub open spec fn holds_lower_only(nodes: Seq<Node>, table: Map<Entity, i64>) -> bool {
    forall|entity: Entity| #[trigger] table.contains_key(entity) ==> below_carrier(nodes, entity)
}

/// Working off a stack of nodes that lie below a node that carries an
/// opacity brings only such nodes into the table.
proof fn lemma_drain_lower(nodes: Seq<Node>, table: Map<Entity, i64>, stack: Seq<(Entity, i64)>)
    requires
        holds_lower_only(nodes, table),
        forall|j: int| 0 <= j < stack.len() ==> below_carrier(nodes, (#[trigger] stack[j]).0),
    ensures
        holds_lower_only(nodes, drain(nodes, table, stack)),
    decreases pending(nodes, table), stack.len(),
{
    if stack.len() > 0 {
        let entity = stack.last().0;
        let effective = stack.last().1;
        let rest = stack.drop_last();
        assert forall|j: int| 0 <= j < rest.len() implies below_carrier(
            nodes,
            (#[trigger] rest[j]).0,
        ) by {}
        if table.contains_key(entity) {
            lemma_drain_lower(nodes, table, rest);
        } else {
            lemma_pending_insert(nodes, table, entity, effective);
            let kids = children(nodes, entity);
            let more = rest + handed_down(nodes, effective, kids);
            assert forall|j: int| 0 <= j < more.len() implies below_carrier(
                nodes,
                (#[trigger] more[j]).0,
            ) by {
                if j >= rest.len() {
                    let k = j - rest.len();
                    lemma_child_of_lower_is_below(nodes, entity, kids[k]);
                }
            }
            lemma_drain_lower(nodes, table.insert(entity, effective), more);
        }
    }
}

/// What the nodes that carry an opacity hand down goes to nodes below them,
/// and reaches every child of each of them.
proof fn lemma_seeds(nodes: Seq<Node>, upto: int)
    requires
        0 <= upto <= nodes.len(),
    ensures
        forall|j: int|
            0 <= j < seeds(nodes, upto).len() ==> below_carrier(
                nodes,
                (#[trigger] seeds(nodes, upto)[j]).0,
            ),
        forall|parent: Entity, child: Entity|
            own(nodes, parent) is Some && position(nodes, parent).unwrap() < upto
                && #[trigger] child_of(nodes, parent, child) ==> awaits(
                seeds(nodes, upto),
                child,
            ),
    decreases upto,
{
    if upto > 0 {
        lemma_seeds(nodes, upto - 1);
        let before = seeds(nodes, upto - 1);
        let entity = nodes[upto - 1].entity;
        let kids = children(nodes, entity);
        let all = seeds(nodes, upto);
        lemma_position(nodes, entity);
        assert forall|j: int| 0 <= j < all.len() implies below_carrier(
            nodes,
            (#[trigger] all[j]).0,
        ) by {
            if j >= before.len() {
                let k = j - before.len();
                lemma_child_of_carrier_is_below(nodes, entity, kids[k]);
            }
        }
        assert forall|parent: Entity, child: Entity|
            own(nodes, parent) is Some && position(nodes, parent).unwrap() < upto
                && #[trigger] child_of(nodes, parent, child) implies awaits(all, child) by {
            lemma_position(nodes, parent);
            if position(nodes, parent).unwrap() < upto - 1 {
                let j = choose|j: int| 0 <= j < before.len() && (#[trigger] before[j]).0 == child;
                assert(all[j].0 == child);
            } else {
                let k = choose|k: int| 0 <= k < kids.len() && kids[k] == child;
                assert(all[before.len() + k].0 == child);
            }
        }
    } else {
        assert forall|parent: Entity, child: Entity|
            own(nodes, parent) is Some && position(nodes, parent).unwrap() < upto
                && #[trigger] child_of(nodes, parent, child) implies awaits(
            seeds(nodes, upto),
            child,
        ) by {
            lemma_position(nodes, parent);
        }
    }
}

/// The walk down from the children of the nodes that carry an opacity
/// reaches the end of every path that leads down from such a node.
proof fn lemma_walk_ends_in_lower(nodes: Seq<Node>, path: Seq<Entity>)
    requires
        walks_down(nodes, path),
        path.len() >= 2,
        own(nodes, path[0]) is Some,
    ensures
        lower(nodes).contains_key(path.last()),
    decreases path.len(),
{
    let all = seeds(nodes, nodes.len() as int);
    let none = Map::<Entity, i64>::empty();
    assert forall|parent: Entity, child: Entity|
        #[trigger] none.contains_key(parent) && #[trigger] child_of(
            nodes,
            parent,
            child,
        ) implies none.contains_key(child) || awaits(all, child) by {}
    lemma_drain_closed(nodes, none, all);
    lemma_seeds(nodes, nodes.len() as int);
    let parent = path.drop_last().last();
    if path.len() == 2 {
        lemma_position(nodes, parent);
    } else {
        lemma_walk_ends_in_lower(nodes, path.drop_last());
    }
}

/// The walk down from the children of the nodes that carry an opacity
/// reaches exactly the nodes that lie below such a node.
pub proof fn lemma_lower_is_below(nodes: Seq<Node>)
    ensures
        forall|entity: Entity| #[trigger]
            lower(nodes).contains_key(entity) <==> below_carrier(nodes, entity),
{
    lemma_seeds(nodes, nodes.len() as int);
    lemma_drain_lower(nodes, Map::empty(), seeds(nodes, nodes.len() as int));
    assert forall|entity: Entity| below_carrier(nodes, entity) implies #[trigger] lower(
        nodes,
    ).contains_key(entity) by {
        let upper = choose|upper: Entity|
            own(nodes, upper) is Some && #[trigger] below(nodes, upper, entity);
        let path = choose|path: Seq<Entity>| #[trigger]
            walks_down(nodes, path) && path.len() >= 2 && path[0] == upper && path.last()
                == entity;
        lemma_walk_ends_in_lower(nodes, path);
    }
}

} // verus!
