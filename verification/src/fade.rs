//! The interpolation step over all nodes, and what holds of a value that
//! is stepped again and again.

use crate::fixed::lemma_rate_covers;
use crate::fixed::lemma_rate_points_the_way;
use crate::fixed::UNIT;
use crate::opacity::Opacity;
use crate::opacity::OpacityState;
use bevy::ecs::entity::Entity;
use vstd::prelude::*;

verus! {

/// The nodes among `nodes`, in their order, whose step of `dt` ticks asks
/// for their removal.
pub open spec fn removal_requests(nodes: Seq<(Entity, Opacity)>, dt: nat) -> Seq<Entity>
    decreases nodes.len(),
{
    if nodes.len() == 0 {
        Seq::empty()
    } else {
        let before = removal_requests(nodes.drop_last(), dt);
        if nodes.last().1@.requests_removal(dt) {
            before.push(nodes.last().0)
        } else {
            before
        }
    }
}

/// Advances the opacity of every node by `dt` ticks. Returns the nodes
/// whose removal is to be requested from the host, in the order of `nodes`;
/// nothing is removed here.
pub fn interpolate(nodes: &mut Vec<(Entity, Opacity)>, dt: u64) -> (requests: Vec<Entity>)
    ensures
        final(nodes)@.len() == old(nodes)@.len(),
        forall|i: int|
            0 <= i < old(nodes)@.len() ==> (#[trigger] final(nodes)@[i]).0 == old(nodes)@[i].0
                && final(nodes)@[i].1@ == old(nodes)@[i].1@.step(dt as nat),
        requests@ == removal_requests(old(nodes)@, dt as nat),
{
    let mut requests: Vec<Entity> = Vec::new();
    let mut i: usize = 0;
    while i < nodes.len()
        invariant
            i <= nodes.len(),
            nodes@.len() == old(nodes)@.len(),
            forall|j: int|
                0 <= j < i ==> (#[trigger] nodes@[j]).0 == old(nodes)@[j].0 && nodes@[j].1@ == old(
                    nodes,
                )@[j].1@.step(dt as nat),
            forall|j: int| i <= j < nodes@.len() ==> nodes@[j] == old(nodes)@[j],
            requests@ == removal_requests(old(nodes)@.take(i as int), dt as nat),
        decreases nodes.len() - i,
    {
        let entity = nodes[i].0;
        let mut opacity = nodes[i].1;
        let remove = opacity.step(dt);
        nodes.set(i, (entity, opacity));
        if remove {
            requests.push(entity);
        }
        proof {
            let done = old(nodes)@.take(i + 1);
            assert(done.drop_last() == old(nodes)@.take(i as int));
        }
        i += 1;
    }
    proof {
        assert(old(nodes)@.take(i as int) == old(nodes)@);
    }
    requests
}

/// Every transition that sets a target sets a speed that points from the
/// current value to the target. A fade moves even where the value is at its
/// target already; a movement to a value is at rest from the start where
/// the value is there already. Only a fade out leaves the removal asked
/// for.
pub proof fn lemma_transitions_point_to_their_target(
    start: OpacityState,
    opacity: int,
    duration: int,
)
    requires
        duration > 0,
    ensures
        start.fade_in(duration).speed > 0,
        start.fade_out(duration).speed < 0,
        start.interpolate_to(opacity, duration).speed > 0 <==> opacity > start.current,
        start.interpolate_to(opacity, duration).speed < 0 <==> opacity < start.current,
        start.interpolate_by_speed(opacity, duration).speed > 0 <==> opacity > start.current,
        start.interpolate_by_speed(opacity, duration).speed < 0 <==> opacity < start.current,
        start.fade_out(duration).despawns,
        !start.fade_in(duration).despawns,
        !start.interpolate_to(opacity, duration).despawns,
        !start.interpolate_by_speed(opacity, duration).despawns,
        !OpacityState::resting(opacity).despawns,
{
    lemma_rate_points_the_way(UNIT as int, duration);
    lemma_rate_points_the_way(-(UNIT as int), duration);
    lemma_rate_points_the_way(opacity - start.current, duration);
}

/// After a step a value that was moving rests exactly where it is at its
/// target.
pub proof fn lemma_step_rests_on_arrival(state: OpacityState, dt: nat)
    requires
        state.speed != 0,
    ensures
        state.step(dt).speed == 0 <==> state.step(dt).current == state.step(dt).target,
{
}

/// The ticks that a run of steps takes in all.
pub open spec fn elapsed(dts: Seq<nat>) -> nat
    decreases dts.len(),
{
    if dts.len() == 0 {
        0
    } else {
        elapsed(dts.drop_last()) + dts.last()
    }
}

/// The state after one step for each entry of `dts`, in their order.
pub open spec fn run(start: OpacityState, dts: Seq<nat>) -> OpacityState
    decreases dts.len(),
{
    if dts.len() == 0 {
        start
    } else {
        run(start, dts.drop_last()).step(dts.last())
    }
}

/// How many steps of the run ask for the node's removal.
pub open spec fn requests_during(start: OpacityState, dts: Seq<nat>) -> nat
    decreases dts.len(),
{
    if dts.len() == 0 {
        0
    } else {
        let earlier = requests_during(start, dts.drop_last());
        if run(start, dts.drop_last()).requests_removal(dts.last()) {
            earlier + 1
        } else {
            earlier
        }
    }
}

/// A value that rests stays as it is under any steps, and none of them
/// asks for removal.
pub proof fn lemma_resting_run(start: OpacityState, dts: Seq<nat>)
    requires
        start.speed == 0,
    ensures
        run(start, dts) == start,
        requests_during(start, dts) == 0,
    decreases dts.len(),
{
    if dts.len() > 0 {
        lemma_resting_run(start, dts.drop_last());
    }
}

/// Setting a value in the middle of a fade cancels the fade: whatever
/// steps follow, the value stays where it was set and no removal is asked
/// for.
pub proof fn lemma_set_cancels(opacity: int, dts: Seq<nat>)
    ensures
        run(OpacityState::resting(opacity), dts) == OpacityState::resting(opacity),
        requests_during(OpacityState::resting(opacity), dts) == 0,
{
    lemma_resting_run(OpacityState::resting(opacity), dts);
}

/// A moving value, under any steps, either has settled at its target or
/// has moved by its speed times the ticks that passed, and after at least
/// one step a value that has not settled is still short of its target.
pub proof fn lemma_moving_run(start: OpacityState, dts: Seq<nat>)
    requires
        start.speed != 0,
    ensures
        run(start, dts) == start.settled() || run(start, dts) == start.moved_to(
            start.current + start.speed * elapsed(dts),
        ),
        dts.len() > 0 && start.speed > 0 && run(start, dts) != start.settled() ==> run(
            start,
            dts,
        ).current < start.target,
        dts.len() > 0 && start.speed < 0 && run(start, dts) != start.settled() ==> run(
            start,
            dts,
        ).current > start.target,
    decreases dts.len(),
{
    if dts.len() == 0 {
        assert(start.speed * 0 == 0);
    } else {
        let before = run(start, dts.drop_last());
        let gone = elapsed(dts.drop_last());
        let dt = dts.last();
        lemma_moving_run(start, dts.drop_last());
        if before != start.settled() {
            assert(start.speed * (gone + dt) == start.speed * gone + start.speed * dt)
                by (nonlinear_arith);
        }
    }
}

/// A value that does not despawn asks for no removal, whatever the steps.
pub proof fn lemma_silent_without_despawn(start: OpacityState, dts: Seq<nat>)
    requires
        !start.despawns,
    ensures
        !run(start, dts).despawns,
        requests_during(start, dts) == 0,
    decreases dts.len(),
{
    if dts.len() > 0 {
        lemma_silent_without_despawn(start, dts.drop_last());
    }
}

/// A fade in that starts at zero or above rests at `UNIT` once the steps
/// add up to the duration asked for or more, and has asked for no removal.
pub proof fn lemma_fade_in_completes(start: OpacityState, duration: nat, dts: Seq<nat>)
    requires
        duration > 0,
        start.current >= 0,
        elapsed(dts) >= duration,
    ensures
        run(start.fade_in(duration as int), dts) == OpacityState::resting(UNIT as int),
        requests_during(start.fade_in(duration as int), dts) == 0,
{
    let fading = start.fade_in(duration as int);
    let speed = fading.speed;
    let time = elapsed(dts);
    lemma_rate_covers(UNIT as int, duration as int);
    lemma_moving_run(fading, dts);
    lemma_silent_without_despawn(fading, dts);
    assert(speed * time >= speed * duration) by (nonlinear_arith)
        requires
            speed > 0,
            time >= duration,
    ;
}

/// A fade out asks for the node's removal once, in the step in which it
/// comes to rest, and in no step before or after it: after any steps it has
/// asked once if it rests and not at all if it still moves.
pub proof fn lemma_fade_out_requests_once(start: OpacityState, duration: nat, dts: Seq<nat>)
    requires
        duration > 0,
    ensures
        run(start.fade_out(duration as int), dts) == start.fade_out(duration as int).settled()
            ==> requests_during(start.fade_out(duration as int), dts) == 1,
        run(start.fade_out(duration as int), dts) != start.fade_out(duration as int).settled()
            ==> requests_during(start.fade_out(duration as int), dts) == 0,
    decreases dts.len(),
{
    let fading = start.fade_out(duration as int);
    lemma_rate_covers(-(UNIT as int), duration as int);
    lemma_moving_run(fading, dts);
    if dts.len() > 0 {
        lemma_fade_out_requests_once(start, duration, dts.drop_last());
        lemma_moving_run(fading, dts.drop_last());
    }
}

/// A fade out that starts at `UNIT` or below rests at zero once the steps
/// add up to the duration asked for or more, however long it is stepped
/// on, and has asked for the node's removal exactly once.
pub proof fn lemma_fade_out_completes(start: OpacityState, duration: nat, dts: Seq<nat>)
    requires
        duration > 0,
        start.current <= UNIT,
        elapsed(dts) >= duration,
    ensures
        run(start.fade_out(duration as int), dts) == start.fade_out(duration as int).settled(),
        run(start.fade_out(duration as int), dts).current == 0,
        run(start.fade_out(duration as int), dts).speed == 0,
        requests_during(start.fade_out(duration as int), dts) == 1,
{
    let fading = start.fade_out(duration as int);
    let speed = fading.speed;
    let time = elapsed(dts);
    lemma_rate_covers(-(UNIT as int), duration as int);
    lemma_moving_run(fading, dts);
    lemma_fade_out_requests_once(start, duration, dts);
    assert(speed * time <= speed * duration) by (nonlinear_arith)
        requires
            speed < 0,
            time >= duration,
    ;
}

/// A fade out asks for the node's removal in the step that first brings
/// the value to zero or below, and in no step before it; in that step it
/// comes to rest.
pub proof fn lemma_fade_out_requests_on_arrival(
    start: OpacityState,
    duration: nat,
    dts: Seq<nat>,
)
    requires
        duration > 0,
        dts.len() > 0,
        forall|k: int|
            0 <= k < dts.len() ==> (#[trigger] run(
                start.fade_out(duration as int),
                dts.take(k),
            )).current > 0,
        run(start.fade_out(duration as int), dts).current <= 0,
    ensures
        run(start.fade_out(duration as int), dts.drop_last()).requests_removal(dts.last()),
        requests_during(start.fade_out(duration as int), dts.drop_last()) == 0,
        requests_during(start.fade_out(duration as int), dts) == 1,
        run(start.fade_out(duration as int), dts) == start.fade_out(duration as int).settled(),
{
    let fading = start.fade_out(duration as int);
    lemma_rate_covers(-(UNIT as int), duration as int);
    let earlier = dts.drop_last();
    lemma_moving_run(fading, earlier);
    lemma_moving_run(fading, dts);
    assert forall|k: int| 0 <= k < earlier.len() implies (#[trigger] run(
        fading,
        earlier.take(k + 1),
    )).current > 0 by {
        assert(earlier.take(k + 1) == dts.take(k + 1));
    }
    lemma_silent_while_above_zero(fading, earlier);
}

/// No step asks for removal that leaves the value above zero.
pub proof fn lemma_silent_while_above_zero(start: OpacityState, dts: Seq<nat>)
    requires
        forall|k: int| 0 <= k < dts.len() ==> (#[trigger] run(start, dts.take(k + 1))).current > 0,
    ensures
        requests_during(start, dts) == 0,
    decreases dts.len(),
{
    if dts.len() > 0 {
        let earlier = dts.drop_last();
        assert forall|k: int| 0 <= k < earlier.len() implies (#[trigger] run(
            start,
            earlier.take(k + 1),
        )).current > 0 by {
            assert(earlier.take(k + 1) == dts.take(k + 1));
        }
        lemma_silent_while_above_zero(start, earlier);
        assert(dts.take(dts.len() as int) == dts);
        assert(run(start, dts.take((dts.len() - 1) + 1)).current > 0);
    }
}

} // verus!
