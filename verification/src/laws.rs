use crate::rudoku::{
    asked, deliveries, functional, lemma_subscribed_in_turn, live, sets_asked, subscribed,
    subscriptions_made, within, FixedValue, Observed, ObservedJoin, ObservedSplit, Observer,
    ObserverId, Observers, Request, StateValueValue, Value, ValueJoin, ValueMap,
};
use std::rc::Rc;
use vstd::prelude::*;

verus! {

/// While none of its subscribers has been released, a notify pass reaches
/// every entry of a registry: a source with N subscribers sends N
/// notifications.
pub proof fn law_notify_count<O>(registry: Seq<ObserverId>, observers: &Observers<O>)
    requires
        forall|i: int| 0 <= i < registry.len() ==> observers.alive(#[trigger] registry[i]),
    ensures
        live(registry, observers) == registry,
    decreases registry.len(),
{
    reveal(Seq::filter);
    if registry.len() > 0 {
        law_notify_count(registry.drop_last(), observers);
        assert(registry.drop_last().push(registry.last()) =~= registry);
    }
}

/// Once an observer has been released, a notify pass reaches the other
/// subscribers only, in their order: where the observer had subscribed
/// once, one notification fewer is sent, and its entry is gone afterwards.
pub proof fn law_weak_pruning<O>(
    registry: Seq<ObserverId>,
    before: &Observers<O>,
    after: &Observers<O>,
    released: ObserverId,
    at: int,
)
    requires
        forall|i: int| 0 <= i < registry.len() ==> before.alive(#[trigger] registry[i]),
        !after.alive(released),
        forall|other: ObserverId|
            other != released ==> after.alive(other) == before.alive(other),
        0 <= at < registry.len(),
        registry[at] == released,
        forall|i: int| 0 <= i < registry.len() && i != at ==> registry[i] != released,
    ensures
        live(registry, after) == registry.remove(at),
        live(registry, after).len() == live(registry, before).len() - 1,
        !live(registry, after).contains(released),
    decreases registry.len(),
{
    reveal(Seq::filter);
    law_notify_count(registry, before);
    let rest = registry.drop_last();
    if at == registry.len() - 1 {
        assert forall|i: int| 0 <= i < rest.len() implies after.alive(#[trigger] rest[i]) by {
            assert(rest[i] == registry[i]);
        }
        law_notify_count(rest, after);
        assert(registry.remove(at) =~= rest);
    } else {
        assert(rest[at] == registry[at]);
        assert forall|i: int| 0 <= i < rest.len() implies before.alive(#[trigger] rest[i]) by {
            assert(rest[i] == registry[i]);
        }
        assert forall|i: int| 0 <= i < rest.len() && i != at implies rest[i] != released by {
            assert(rest[i] == registry[i]);
        }
        law_weak_pruning(rest, before, after, released, at);
        assert(after.alive(registry.last()));
        assert(rest.remove(at).push(registry.last()) =~= registry.remove(at));
    }
    assert forall|i: int| 0 <= i < registry.remove(at).len() implies registry.remove(at)[i]
        != released by {
        if i < at {
            assert(registry.remove(at)[i] == registry[i]);
        } else {
            assert(registry.remove(at)[i] == registry[i + 1]);
        }
    }
}

/// Whether `handle` reads one value only when the sources hold `values`.
pub open spec fn single<P, V: Value<P>>(handle: V, values: Seq<P>) -> bool {
    forall|a: V::T, b: V::T|
        #![trigger handle.reads(values, a), handle.reads(values, b)]
        handle.reads(values, a) && handle.reads(values, b) ==> a == b
}

/// Two reads of a fixed handle give the same value.
pub proof fn law_fixed_read_pure<P, T: Copy>(handle: FixedValue<T>, values: Seq<P>)
    ensures
        single::<P, FixedValue<T>>(handle, values),
{
}

/// Two reads of the handle of a mutable source give the same value unless
/// the source was set in between.
pub proof fn law_state_read_pure<T: Copy>(handle: StateValueValue<T>, values: Seq<T>)
    ensures
        single(handle, values),
{
}

/// Two reads of a mapped handle give the same value if two reads of the
/// handle that it maps do and the function is functional.
pub proof fn law_map_read_pure<P, S: Value<P>, U, F: Fn(S::T) -> U>(
    handle: ValueMap<S, F>,
    values: Seq<P>,
)
    requires
        single(handle.underlying(), values),
        functional(handle.adapter()),
    ensures
        single(handle, values),
{
    assert forall|a: U, b: U|
        #![trigger handle.reads(values, a), handle.reads(values, b)]
        handle.reads(values, a) && handle.reads(values, b) implies a == b by {
        let ua = choose|u: S::T| #[trigger]
            handle.underlying().reads(values, u) && call_ensures(handle.adapter(), (u,), a);
        let ub = choose|u: S::T| #[trigger]
            handle.underlying().reads(values, u) && call_ensures(handle.adapter(), (u,), b);
        assert(handle.underlying().reads(values, ua) && handle.underlying().reads(values, ub));
        assert(call_ensures(handle.adapter(), (ua,), a) && call_ensures(
            handle.adapter(),
            (ua,),
            b,
        ));
    }
}

/// Two reads of a joined handle give the same pair if two reads of each
/// side give the same value.
pub proof fn law_join_read_pure<P, L: Value<P>, R: Value<P>>(
    handle: ValueJoin<L, R>,
    values: Seq<P>,
)
    requires
        single(handle.left(), values),
        single(handle.right(), values),
    ensures
        single(handle, values),
{
    assert forall|a: (L::T, R::T), b: (L::T, R::T)|
        #![trigger handle.reads(values, a), handle.reads(values, b)]
        handle.reads(values, a) && handle.reads(values, b) implies a == b by {
        assert(handle.left().reads(values, a.0) && handle.left().reads(values, b.0));
        assert(handle.right().reads(values, a.1) && handle.right().reads(values, b.1));
    }
}

/// Two reads of a shared handle give the same value if two reads of the
/// handle that is shared do.
pub proof fn law_shared_read_pure<P, V: Value<P>>(handle: Rc<V>, values: Seq<P>)
    requires
        single(*handle, values),
    ensures
        single(handle, values),
{
    assert forall|a: V::T, b: V::T|
        #![trigger handle.reads(values, a), handle.reads(values, b)]
        handle.reads(values, a) && handle.reads(values, b) implies a == b by {
        assert((*handle).reads(values, a) && (*handle).reads(values, b));
    }
}

/// What a mapped handle reads is the function's result for what the handle
/// that it maps reads.
pub proof fn law_map_composition<P, S: Value<P>, U, F: Fn(S::T) -> U>(
    handle: ValueMap<S, F>,
    values: Seq<P>,
    u: S::T,
    r: U,
)
    requires
        single(handle.underlying(), values),
        handle.underlying().reads(values, u),
    ensures
        handle.reads(values, r) == call_ensures(handle.adapter(), (u,), r),
{
    if handle.reads(values, r) {
        let w = choose|w: S::T| #[trigger]
            handle.underlying().reads(values, w) && call_ensures(handle.adapter(), (w,), r);
        assert(handle.underlying().reads(values, w) && handle.underlying().reads(values, u));
    }
}

/// What a joined handle reads is the pair of what its two sides read.
pub proof fn law_join_consistency<P, L: Value<P>, R: Value<P>>(
    handle: ValueJoin<L, R>,
    values: Seq<P>,
    a: L::T,
    b: R::T,
)
    ensures
        handle.reads(values, (a, b)) == (handle.left().reads(values, a) && handle.right().reads(
            values,
            b,
        )),
{
}

/// How often `cell` occurs in `sources`.
pub open spec fn occurrences(sources: Seq<usize>, cell: usize) -> nat
    decreases sources.len(),
{
    if sources.len() == 0 {
        0
    } else if sources.last() == cell {
        occurrences(sources.drop_last(), cell) + 1
    } else {
        occurrences(sources.drop_last(), cell)
    }
}

/// Subscribing adds to a registry the observer and nothing else, once for
/// each time that the source occurs, and leaves what was there in front.
pub proof fn law_subscribed_entries(
    registries: Seq<Seq<ObserverId>>,
    sources: Seq<usize>,
    observer: ObserverId,
    cell: usize,
)
    requires
        within(sources, registries.len()),
        cell < registries.len(),
    ensures
        subscribed(registries, sources, observer).len() == registries.len(),
        subscribed(registries, sources, observer)[cell as int] == registries[cell as int]
            + Seq::new(occurrences(sources, cell), |i: int| observer),
    decreases sources.len(),
{
    let added = Seq::new(occurrences(sources, cell), |i: int| observer);
    if sources.len() == 0 {
        assert(registries[cell as int] + added =~= registries[cell as int]);
    } else {
        let before = sources.drop_last();
        law_subscribed_entries(registries, before, observer, cell);
        let added_before = Seq::new(occurrences(before, cell), |i: int| observer);
        if sources.last() == cell {
            assert((registries[cell as int] + added_before).push(observer)
                =~= registries[cell as int] + added);
        } else {
            assert(added_before =~= added);
        }
    }
}


/// Asking a joined source for a value subscribes the observer to the sources
/// of the left side and then, the same observer, to those of the right side.
pub proof fn law_join_shares_observer<P, L: Observed<P>, R: Observed<P>>(
    joined: ObservedJoin<L, R>,
    registries: Seq<Seq<ObserverId>>,
    observer: ObserverId,
)
    ensures
        subscribed(registries, joined.sources(), observer) == subscribed(
            subscribed(registries, joined.left().sources(), observer),
            joined.right().sources(),
            observer,
        ),
{
    lemma_subscribed_in_turn(
        registries,
        joined.left().sources(),
        joined.right().sources(),
        observer,
    );
}

/// Asking a split source for a value subscribes nobody: however many
/// branches take a handle, the one subscription made at the split remains
/// the only one, and each branch reads what the shared handle reads.
pub proof fn law_split_sharing<P, V: Value<P>>(
    split: ObservedSplit<V>,
    registries: Seq<Seq<ObserverId>>,
    observer: ObserverId,
    values: Seq<P>,
    r: V::T,
)
    ensures
        subscribed(registries, Observed::<P>::sources(&split), observer) == registries,
        Observed::<P>::yields(&split, values, r) == split.shared().reads(values, r),
{
}

/// Observers that ask for nothing leave no trace: after a notify pass the
/// registry holds the subscribers that were alive, and the queue is as it
/// was.
pub proof fn law_nothing_asked<P, O: Observer<P>>(
    ids: Seq<ObserverId>,
    observers: &Observers<O>,
    values: Seq<P>,
    registries: Seq<Seq<ObserverId>>,
)
    requires
        forall|i: int|
            0 <= i < ids.len() ==> (#[trigger] observers.sink(ids[i])).asks(values)
                == Seq::<Request<P>>::empty(),
    ensures
        asked(ids, observers, values) == Seq::<Request<P>>::empty(),
        subscriptions_made(registries, asked(ids, observers, values)) == registries,
        sets_asked(asked(ids, observers, values)) == Seq::<(usize, P)>::empty(),
    decreases ids.len(),
{
    if ids.len() > 0 {
        let rest = ids.drop_last();
        assert forall|i: int| 0 <= i < rest.len() implies (#[trigger] observers.sink(
            rest[i],
        )).asks(values) == Seq::<Request<P>>::empty() by {
            assert(rest[i] == ids[i]);
        }
        law_nothing_asked(rest, observers, values, registries);
        assert(observers.sink(ids[ids.len() - 1]).asks(values) == Seq::<Request<P>>::empty());
        assert(asked(ids, observers, values) =~= Seq::<Request<P>>::empty());
    }
}

/// Every observer of a notify pass is notified while the sources hold the
/// values of the pass: none sees a value from before the mutation.
pub proof fn law_pass_sees_new_values<P>(ids: Seq<ObserverId>, values: Seq<P>, i: int)
    requires
        0 <= i < ids.len(),
    ensures
        deliveries(ids, values).len() == ids.len(),
        deliveries(ids, values)[i].observer == ids[i],
        deliveries(ids, values)[i].values == values,
{
}

} // verus!
