//! The dispatch protocol: what an attribute must offer to take an effective
//! opacity, and the driver that hands the table's values to the attributes
//! of one kind.

use crate::table::OpacityMap;
use bevy::ecs::entity::Entity;
use vstd::prelude::*;

verus! {

/// An attribute of a node that takes an effective opacity, with the help
/// of a context that all attributes of its kind share.
pub trait OpacityQuery: Sized {
    /// What the attributes of this kind share; `()` where they need nothing.
    type Cx;

    /// The mathematical form of the context, over which the contracts
    /// speak.
    type CxModel;

    /// The mathematical form of a context.
    spec fn model(cx: Self::Cx) -> Self::CxModel;

    /// The attribute and the context after the attribute took `opacity`.
    spec fn applied(self, cx: Self::CxModel, opacity: i64) -> (Self, Self::CxModel);

    /// Taking the same opacity twice in a row leaves attribute and context
    /// as taking it once.
    proof fn lemma_applied_twice(self, cx: Self::CxModel, opacity: i64)
        ensures
            self.applied(cx, opacity).0.applied(self.applied(cx, opacity).1, opacity)
                == self.applied(cx, opacity),
    ;

    /// What the attribute becomes does not depend on the context.
    proof fn lemma_attribute_ignores_context(
        self,
        cx: Self::CxModel,
        other: Self::CxModel,
        opacity: i64,
    )
        ensures
            self.applied(cx, opacity).0 == self.applied(other, opacity).0,
    ;

    /// An attribute that has taken an opacity does to a context, when it
    /// takes the opacity again, what it would have done before.
    proof fn lemma_context_taken_again(
        self,
        before: Self::CxModel,
        cx: Self::CxModel,
        opacity: i64,
    )
        ensures
            self.applied(before, opacity).0.applied(cx, opacity).1 == self.applied(
                cx,
                opacity,
            ).1,
    ;

    /// What an attribute writes into the context overwrites what it wrote
    /// there earlier: with another attribute's writing in between, the
    /// earlier writing makes no difference.
    proof fn lemma_context_overwritten(
        self,
        opacity: i64,
        other: Self,
        between: i64,
        cx: Self::CxModel,
    )
        ensures
            self.applied(
                other.applied(self.applied(cx, opacity).1, between).1,
                opacity,
            ).1 == self.applied(other.applied(cx, between).1, opacity).1,
    ;

    /// Writes `opacity` into the attribute. Where the context lacks what
    /// the attribute needs, nothing is written and nothing fails.
    fn apply_opacity(this: &mut Self, cx: &mut Self::Cx, opacity: i64)
        ensures
            (*final(this), Self::model(*final(cx))) == old(this).applied(
                Self::model(*old(cx)),
                opacity,
            ),
    ;
}

/// A resource that takes an effective opacity by itself.
pub trait OpacityAsset: Sized {
    /// The resource after it took `opacity`.
    spec fn with_opacity(self, opacity: i64) -> Self;

    /// Taking the same opacity twice in a row leaves the resource as taking
    /// it once.
    proof fn lemma_taken_twice(self, opacity: i64)
        ensures
            self.with_opacity(opacity).with_opacity(opacity) == self.with_opacity(opacity),
    ;

    /// What the resource takes overwrites what it took earlier: with
    /// another opacity taken in between, the earlier taking makes no
    /// difference.
    proof fn lemma_taken_over(self, opacity: i64, between: i64)
        ensures
            self.with_opacity(opacity).with_opacity(between).with_opacity(opacity)
                == self.with_opacity(between).with_opacity(opacity),
    ;

    /// Writes `opacity` into the resource.
    fn apply_opacity(&mut self, opacity: i64)
        ensures
            *final(self) == old(self).with_opacity(opacity),
    ;
}

/// What one pass of the driver leaves: the context and the attributes after
/// each attribute whose node has an entry in `table` took that entry's
/// value, in the order of `query`. An attribute whose node has no entry
/// stays as it was.
pub open spec fn dispatched<Q: OpacityQuery>(
    table: Map<Entity, i64>,
    cx: Q::CxModel,
    query: Seq<(Entity, Q)>,
) -> (Q::CxModel, Seq<(Entity, Q)>)
    decreases query.len(),
{
    if query.len() == 0 {
        (cx, query)
    } else {
        let earlier = dispatched(table, cx, query.drop_last());
        let entity = query.last().0;
        if table.contains_key(entity) {
            let taken = query.last().1.applied(earlier.0, table[entity]);
            (taken.1, earlier.1.push((entity, taken.0)))
        } else {
            (earlier.0, earlier.1.push(query.last()))
        }
    }
}

/// Hands every attribute of `query` whose node has an entry in the table
/// that entry's value. Attributes of nodes without an entry are not
/// touched.
pub fn apply_opacity_query<Q: OpacityQuery>(
    map: &OpacityMap,
    cx: &mut Q::Cx,
    query: &mut Vec<(Entity, Q)>,
)
    ensures
        (Q::model(*final(cx)), final(query)@) == dispatched(
            map@,
            Q::model(*old(cx)),
            old(query)@,
        ),
{
    let mut i: usize = 0;
    while i < query.len()
        invariant
            i <= query.len(),
            query@.len() == old(query)@.len(),
            (Q::model(*cx), query@.take(i as int)) == dispatched(
                map@,
                Q::model(*old(cx)),
                old(query)@.take(i as int),
            ),
            forall|j: int| i <= j < query@.len() ==> query@[j] == old(query)@[j],
        decreases query.len() - i,
    {
        let entity = query[i].0;
        match map.get(entity) {
            Some(opacity) => {
                let item = &mut query[i];
                Q::apply_opacity(&mut item.1, cx, opacity);
            },
            None => {},
        }
        proof {
            let done = old(query)@.take(i + 1);
            assert(done.drop_last() == old(query)@.take(i as int));
        }
        i += 1;
    }
    proof {
        assert(old(query)@.take(i as int) == old(query)@);
    }
}

/// A pass of the driver keeps the nodes and their order, and leaves the
/// attribute of every node without an entry in the table as it was.
pub proof fn lemma_dispatch_keeps_nodes<Q: OpacityQuery>(
    table: Map<Entity, i64>,
    cx: Q::CxModel,
    query: Seq<(Entity, Q)>,
)
    ensures
        dispatched(table, cx, query).1.len() == query.len(),
        forall|i: int|
            0 <= i < query.len() ==> (#[trigger] dispatched(table, cx, query).1[i]).0
                == query[i].0,
        forall|i: int|
            0 <= i < query.len() && !table.contains_key(query[i].0) ==> #[trigger] dispatched(
                table,
                cx,
                query,
            ).1[i] == query[i],
    decreases query.len(),
{
    if query.len() > 0 {
        lemma_dispatch_keeps_nodes(table, cx, query.drop_last());
    }
}

/// A pass of the driver gives every node with an entry in the table the
/// attribute that took that entry's value, whatever the context was.
pub proof fn lemma_dispatch_per_node<Q: OpacityQuery>(
    table: Map<Entity, i64>,
    cx: Q::CxModel,
    query: Seq<(Entity, Q)>,
    any: Q::CxModel,
)
    ensures
        forall|i: int|
            0 <= i < query.len() && table.contains_key(query[i].0) ==> (#[trigger] dispatched(
                table,
                cx,
                query,
            ).1[i]).1 == query[i].1.applied(any, table[query[i].0]).0,
    decreases query.len(),
{
    if query.len() > 0 {
        let earlier = dispatched(table, cx, query.drop_last());
        lemma_dispatch_per_node(table, cx, query.drop_last(), any);
        lemma_dispatch_keeps_nodes(table, cx, query.drop_last());
        let entity = query.last().0;
        if table.contains_key(entity) {
            query.last().1.lemma_attribute_ignores_context(earlier.0, any, table[entity]);
        }
        assert forall|i: int|
            0 <= i < query.len() && table.contains_key(query[i].0) implies (#[trigger] dispatched(
            table,
            cx,
            query,
        ).1[i]).1 == query[i].1.applied(any, table[query[i].0]).0 by {}
    }
}

/// Whether the attributes of `taken` are those of `query` after each with
/// an entry in the table took that entry's value.
pub open spec fn taken_from<Q: OpacityQuery>(
    table: Map<Entity, i64>,
    query: Seq<(Entity, Q)>,
    taken: Seq<(Entity, Q)>,
    cx: Q::CxModel,
) -> bool {
    &&& taken.len() == query.len()
    &&& forall|i: int|
        0 <= i < query.len() ==> (#[trigger] taken[i]).0 == query[i].0 && taken[i].1 == (
        if table.contains_key(query[i].0) {
            query[i].1.applied(cx, table[query[i].0]).0
        } else {
            query[i].1
        })
}

/// A pass over attributes that have taken their values leaves them as they
/// are, and does to the context what a pass over the attributes as they
/// were before would do.
proof fn lemma_dispatch_of_taken<Q: OpacityQuery>(
    table: Map<Entity, i64>,
    cx: Q::CxModel,
    query: Seq<(Entity, Q)>,
    taken: Seq<(Entity, Q)>,
    before: Q::CxModel,
)
    requires
        taken_from(table, query, taken, before),
    ensures
        dispatched(table, cx, taken).1 == taken,
        dispatched(table, cx, taken).0 == dispatched(table, cx, query).0,
    decreases query.len(),
{
    if query.len() > 0 {
        let shorter = query.drop_last();
        let fewer = taken.drop_last();
        assert forall|i: int| 0 <= i < shorter.len() implies (#[trigger] fewer[i]).0
            == shorter[i].0 && fewer[i].1 == (if table.contains_key(shorter[i].0) {
            shorter[i].1.applied(before, table[shorter[i].0]).0
        } else {
            shorter[i].1
        }) by {}
        lemma_dispatch_of_taken(table, cx, shorter, fewer, before);
        let earlier = dispatched(table, cx, fewer);
        let last = query.len() - 1;
        let entity = query[last].0;
        if table.contains_key(entity) {
            let opacity = table[entity];
            let old = query[last].1;
            let new = taken[last].1;
            old.lemma_applied_twice(before, opacity);
            new.lemma_attribute_ignores_context(
                old.applied(before, opacity).1,
                earlier.0,
                opacity,
            );
            old.lemma_context_taken_again(before, earlier.0, opacity);
        }
    }
}

/// The context after a pass.
pub open spec fn context_after<Q: OpacityQuery>(
    table: Map<Entity, i64>,
    cx: Q::CxModel,
    query: Seq<(Entity, Q)>,
) -> Q::CxModel {
    dispatched(table, cx, query).0
}

/// What an attribute writes into the context before a pass makes no
/// difference once it has written into it after the pass.
proof fn lemma_pass_between<Q: OpacityQuery>(
    table: Map<Entity, i64>,
    cx: Q::CxModel,
    query: Seq<(Entity, Q)>,
    attribute: Q,
    opacity: i64,
)
    ensures
        attribute.applied(
            context_after(table, attribute.applied(cx, opacity).1, query),
            opacity,
        ).1 == attribute.applied(context_after(table, cx, query), opacity).1,
    decreases query.len(),
{
    let first = attribute.applied(cx, opacity).1;
    if query.len() == 0 {
        attribute.lemma_applied_twice(cx, opacity);
        attribute.lemma_context_taken_again(cx, first, opacity);
    } else {
        let shorter = query.drop_last();
        lemma_pass_between(table, cx, shorter, attribute, opacity);
        let entity = query.last().0;
        if table.contains_key(entity) {
            let other = query.last().1;
            let between = table[entity];
            let with = context_after(table, first, shorter);
            let without = context_after(table, cx, shorter);
            attribute.lemma_context_overwritten(opacity, other, between, with);
            attribute.lemma_context_overwritten(opacity, other, between, without);
        }
    }
}

/// A second pass with the same table, over the attributes as they were
/// before the first, leaves the context as the first left it.
proof fn lemma_context_after_twice<Q: OpacityQuery>(
    table: Map<Entity, i64>,
    cx: Q::CxModel,
    query: Seq<(Entity, Q)>,
)
    ensures
        context_after(table, context_after(table, cx, query), query) == context_after(
            table,
            cx,
            query,
        ),
    decreases query.len(),
{
    if query.len() > 0 {
        let shorter = query.drop_last();
        let entity = query.last().0;
        lemma_context_after_twice(table, cx, shorter);
        if table.contains_key(entity) {
            lemma_pass_between(
                table,
                context_after(table, cx, shorter),
                shorter,
                query.last().1,
                table[entity],
            );
        }
    }
}

/// A second pass of the driver with the same table leaves every attribute
/// and the context that the attributes share as the first pass left them.
pub proof fn lemma_dispatch_twice<Q: OpacityQuery>(
    table: Map<Entity, i64>,
    cx: Q::CxModel,
    query: Seq<(Entity, Q)>,
)
    ensures
        dispatched(table, dispatched(table, cx, query).0, dispatched(table, cx, query).1)
            == dispatched(table, cx, query),
{
    let once = dispatched(table, cx, query);
    lemma_dispatch_keeps_nodes(table, cx, query);
    lemma_dispatch_per_node(table, cx, query, cx);
    lemma_dispatch_of_taken(table, once.0, query, once.1, cx);
    lemma_context_after_twice(table, cx, query);
}

} // verus!
