use std::marker::PhantomData;
use std::rc::Rc;
use vstd::prelude::*;

verus! {

/// The identity of an observer: its index in an [`Observers`] arena.
pub type ObserverId = usize;

/// What an observer can ask for while it is being notified. The graph is
/// not changed while a notify pass is running: what the observers of a pass
/// ask for is done when the pass is over, in the order in which they asked.
pub enum Request<P> {
    /// Subscribe `observer` to the source `cell`.
    Subscribe { cell: usize, observer: ObserverId },
    /// Set the source `cell` to `value`.
    Assign { cell: usize, value: P },
}

/// One notification: who was notified and what the sources held then.
pub struct Delivery<P> {
    pub observer: ObserverId,
    pub values: Seq<P>,
}

/// A notification sink. `update` is called once for every mutation of a
/// source the observer subscribed to. It receives the graph read-only, so it
/// can pull current values; what it wants changed it returns as requests.
///
/// What a notify pass leaves behind is stated over `asks`. For an
/// implementation that Verus has verified, `update` is proved to return
/// what `asks` says. One that was compiled without being verified is taken
/// at its word.
pub trait Observer<P> {
    /// What the observer asks for when it is notified while the sources
    /// hold `values`. Unless an implementation says otherwise, nothing.
    open spec fn asks(&self, values: Seq<P>) -> Seq<Request<P>> {
        Seq::empty()
    }

    /// Takes note that a source has changed. `graph` holds the new value
    /// already.
    fn update(&self, graph: &Graph<P>) -> (requests: Vec<Request<P>>)
        ensures
            requests@ == self.asks(graph.values()),
    ;
}

/// The arena that owns the observers. A source refers to an observer by its
/// index only, so it can neither keep a released observer alive nor reach
/// one that is gone. An index is never handed out twice.
pub struct Observers<O> {
    slots: Vec<Option<O>>,
}

impl<O> Observers<O> {
    /// The number of indices handed out so far.
    pub closed spec fn count(&self) -> nat {
        self.slots@.len()
    }

    /// Whether `id` names an observer that has not been released.
    pub closed spec fn alive(&self, id: ObserverId) -> bool {
        id < self.slots@.len() && self.slots@[id as int].is_some()
    }

    /// The observer that `id` names, if it is alive.
    pub closed spec fn sink(&self, id: ObserverId) -> O
        recommends
            self.alive(id),
    {
        self.slots@[id as int].unwrap()
    }

    /// An arena without observers.
    pub fn new() -> (r: Observers<O>)
        ensures
            r.count() == 0,
            forall|id: ObserverId| !r.alive(id),
    {
        Observers { slots: Vec::new() }
    }

    /// Takes ownership of `observer` and returns its identity.
    pub fn add(&mut self, observer: O) -> (id: ObserverId)
        ensures
            id == old(self).count(),
            final(self).count() == old(self).count() + 1,
            final(self).alive(id),
            final(self).sink(id) == observer,
            forall|other: ObserverId|
                other != id ==> final(self).alive(other) == old(self).alive(other),
            forall|other: ObserverId|
                old(self).alive(other) ==> final(self).sink(other) == old(self).sink(other),
    {
        let id = self.slots.len();
        self.slots.push(Some(observer));
        id
    }

    /// Ends the life of the observer `id` and hands it back, if it was alive.
    /// Its subscriptions are cancelled lazily, by the next notify pass of
    /// each source it subscribed to.
    pub fn release(&mut self, id: ObserverId) -> (r: Option<O>)
        ensures
            final(self).count() == old(self).count(),
            !final(self).alive(id),
            r.is_some() == old(self).alive(id),
            old(self).alive(id) ==> r == Some(old(self).sink(id)),
            forall|other: ObserverId|
                other != id ==> final(self).alive(other) == old(self).alive(other),
            forall|other: ObserverId|
                other != id && old(self).alive(other) ==> final(self).sink(other) == old(
                    self,
                ).sink(other),
    {
        if id < self.slots.len() {
            let mut taken: Option<O> = None;
            std::mem::swap(&mut taken, &mut self.slots[id]);
            taken
        } else {
            None
        }
    }

    /// Whether `id` names an observer that has not been released.
    pub fn is_alive(&self, id: ObserverId) -> (r: bool)
        ensures
            r == self.alive(id),
    {
        id < self.slots.len() && self.slots[id].is_some()
    }

    /// The observer that `id` names, unless it was released.
    pub fn get(&self, id: ObserverId) -> (r: Option<&O>)
        ensures
            r.is_some() == self.alive(id),
            self.alive(id) ==> r == Some(&self.sink(id)),
    {
        if id < self.slots.len() {
            self.slots[id].as_ref()
        } else {
            None
        }
    }
}

/// One mutable source: its current value and the observers that subscribed
/// to it, oldest subscription first.
struct Cell<P> {
    value: P,
    registry: Vec<ObserverId>,
}

/// The store of the mutable sources of one propagation graph. Handles refer
/// to a source by its index and read or change it through the graph.
pub struct Graph<P> {
    cells: Vec<Cell<P>>,
    pending: Vec<(usize, P)>,
    delivered: Ghost<Seq<Delivery<P>>>,
}

/// Whether every index of `sources` names one of `cells` sources.
pub open spec fn within(sources: Seq<usize>, cells: nat) -> bool {
    forall|i: int| 0 <= i < sources.len() ==> sources[i] < cells
}

/// The registries after `observer` has subscribed to each of `sources`,
/// first to last.
pub open spec fn subscribed(
    registries: Seq<Seq<ObserverId>>,
    sources: Seq<usize>,
    observer: ObserverId,
) -> Seq<Seq<ObserverId>>
    decreases sources.len(),
{
    if sources.len() == 0 {
        registries
    } else {
        let before = subscribed(registries, sources.drop_last(), observer);
        let cell = sources.last() as int;
        before.update(cell, before[cell].push(observer))
    }
}

/// The test that a notify pass applies to each entry of a registry.
pub open spec fn alive_in<O>(observers: &Observers<O>) -> spec_fn(ObserverId) -> bool {
    |id: ObserverId| observers.alive(id)
}

/// The entries of `registry` that are alive in `observers`, in their order.
pub open spec fn live<O>(registry: Seq<ObserverId>, observers: &Observers<O>) -> Seq<ObserverId> {
    registry.filter(alive_in(observers))
}

/// The notifications of one pass: each of `ids` in turn, while the sources
/// hold `values`.
pub open spec fn deliveries<P>(ids: Seq<ObserverId>, values: Seq<P>) -> Seq<Delivery<P>> {
    Seq::new(ids.len(), |i: int| Delivery { observer: ids[i], values })
}

/// What the observers `ids` ask for, one after the other, when they are
/// notified while the sources hold `values`.
pub open spec fn asked<P, O: Observer<P>>(
    ids: Seq<ObserverId>,
    observers: &Observers<O>,
    values: Seq<P>,
) -> Seq<Request<P>>
    decreases ids.len(),
{
    if ids.len() == 0 {
        Seq::empty()
    } else {
        asked(ids.drop_last(), observers, values) + observers.sink(ids.last()).asks(values)
    }
}

/// The registries after the subscriptions among `requests` have been made,
/// first to last. One that names no source of the graph is passed over.
pub open spec fn subscriptions_made<P>(
    registries: Seq<Seq<ObserverId>>,
    requests: Seq<Request<P>>,
) -> Seq<Seq<ObserverId>>
    decreases requests.len(),
{
    if requests.len() == 0 {
        registries
    } else {
        let before = subscriptions_made(registries, requests.drop_last());
        match requests.last() {
            Request::Subscribe { cell, observer } => if cell < before.len() {
                before.update(cell as int, before[cell as int].push(observer))
            } else {
                before
            },
            Request::Assign { .. } => before,
        }
    }
}

/// The source and the value of each request among `requests` to set a
/// source, first to last.
pub open spec fn sets_asked<P>(requests: Seq<Request<P>>) -> Seq<(usize, P)>
    decreases requests.len(),
{
    if requests.len() == 0 {
        Seq::empty()
    } else {
        let before = sets_asked(requests.drop_last());
        match requests.last() {
            Request::Subscribe { .. } => before,
            Request::Assign { cell, value } => before.push((cell, value)),
        }
    }
}

impl<P> Graph<P> {
    /// The current value of each source.
    pub closed spec fn values(&self) -> Seq<P> {
        Seq::new(self.cells@.len(), |i: int| self.cells@[i].value)
    }

    /// The subscribers of each source, oldest subscription first.
    pub closed spec fn registries(&self) -> Seq<Seq<ObserverId>> {
        Seq::new(self.cells@.len(), |i: int| self.cells@[i].registry@)
    }

    /// Every notification delivered so far, in the order of delivery.
    pub closed spec fn delivered(&self) -> Seq<Delivery<P>> {
        self.delivered@
    }

    /// The requests to set a source that wait to be done, oldest first:
    /// the source and the value of each.
    pub closed spec fn pending(&self) -> Seq<(usize, P)> {
        self.pending@
    }

    /// The number of sources.
    pub open spec fn size(&self) -> nat {
        self.values().len()
    }

    /// The same number of sources has a value and has a registry.
    pub proof fn lemma_sizes(&self)
        ensures
            self.values().len() == self.registries().len(),
    {
    }

    /// A graph without sources.
    pub fn new() -> (g: Graph<P>)
        ensures
            g.values() == Seq::<P>::empty(),
            g.registries() == Seq::<Seq<ObserverId>>::empty(),
            g.delivered() == Seq::<Delivery<P>>::empty(),
            g.pending() == Seq::<(usize, P)>::empty(),
    {
        let g = Graph { cells: Vec::new(), pending: Vec::new(), delivered: Ghost(Seq::empty()) };
        assert(g.values() =~= Seq::<P>::empty());
        assert(g.registries() =~= Seq::<Seq<ObserverId>>::empty());
        g
    }

    /// The number of sources.
    pub fn len(&self) -> (n: usize)
        ensures
            n == self.size(),
    {
        self.cells.len()
    }

    /// Adds a source that holds `initial` and has no subscriber.
    fn insert(&mut self, initial: P) -> (cell: usize)
        ensures
            cell == old(self).size(),
            final(self).values() == old(self).values().push(initial),
            final(self).registries() == old(self).registries().push(Seq::empty()),
            final(self).delivered() == old(self).delivered(),
            final(self).pending() == old(self).pending(),
    {
        let cell = self.cells.len();
        self.cells.push(Cell { value: initial, registry: Vec::new() });
        assert(self.values() =~= old(self).values().push(initial));
        assert(self.registries() =~= old(self).registries().push(Seq::empty()));
        cell
    }
}

impl<P: Copy> Graph<P> {
    /// The current value of the source `cell`.
    fn read(&self, cell: usize) -> (value: P)
        requires
            cell < self.size(),
        ensures
            value == self.values()[cell as int],
    {
        self.cells[cell].value
    }

    /// Appends `observer` to the registry of the source `cell`.
    fn subscribe(&mut self, cell: usize, observer: ObserverId)
        requires
            cell < old(self).size(),
        ensures
            final(self).values() == old(self).values(),
            final(self).registries() == old(self).registries().update(
                cell as int,
                old(self).registries()[cell as int].push(observer),
            ),
            final(self).delivered() == old(self).delivered(),
            final(self).pending() == old(self).pending(),
    {
        let value = self.cells[cell].value;
        let mut registry: Vec<ObserverId> = Vec::new();
        std::mem::swap(&mut registry, &mut self.cells[cell].registry);
        registry.push(observer);
        self.cells.set(cell, Cell { value, registry });
        assert(self.values() =~= old(self).values());
        assert(self.registries() =~= old(self).registries().update(
            cell as int,
            old(self).registries()[cell as int].push(observer),
        ));
    }

    /// Does what `requests` ask for, first to last: a subscription is made
    /// at once, unless it names no source of this graph; a request to set a
    /// source joins the queue.
    pub fn serve(&mut self, requests: &Vec<Request<P>>)
        ensures
            final(self).values() == old(self).values(),
            final(self).registries() == subscriptions_made(old(self).registries(), requests@),
            final(self).pending() == old(self).pending() + sets_asked(requests@),
            final(self).delivered() == old(self).delivered(),
    {
        let mut i: usize = 0;
        proof {
            assert(requests@.take(0) =~= Seq::<Request<P>>::empty());
            assert(old(self).pending() + sets_asked(requests@.take(0)) =~= old(self).pending());
        }
        while i < requests.len()
            invariant
                i <= requests.len(),
                self.values() == old(self).values(),
                self.registries() == subscriptions_made(
                    old(self).registries(),
                    requests@.take(i as int),
                ),
                self.pending() == old(self).pending() + sets_asked(requests@.take(i as int)),
                self.delivered() == old(self).delivered(),
            decreases requests.len() - i,
        {
            proof {
                assert(requests@.take(i + 1).drop_last() =~= requests@.take(i as int));
                assert(requests@.take(i + 1).last() == requests@[i as int]);
            }
            match &requests[i] {
                Request::Subscribe { cell, observer } => {
                    if *cell < self.cells.len() {
                        self.subscribe(*cell, *observer);
                    }
                },
                Request::Assign { cell, value } => {
                    self.pending.push((*cell, *value));
                    assert(self.pending() =~= old(self).pending() + sets_asked(
                        requests@.take(i + 1),
                    ));
                },
            }
            i += 1;
        }
        proof {
            assert(requests@.take(i as int) =~= requests@);
        }
    }

    /// Takes the oldest request to set a source out of the queue: the
    /// source and the value to set it to. Whoever set a source does what
    /// its observers asked for by taking the requests out one by one and
    /// setting each source, until none is left. A request is handed out
    /// as it was made: whether the graph has the source that it names is
    /// for the caller to test, with `index` and `len`, before it sets it.
    pub fn next_set(&mut self) -> (r: Option<(StateValue<P>, P)>)
        ensures
            final(self).values() == old(self).values(),
            final(self).registries() == old(self).registries(),
            final(self).delivered() == old(self).delivered(),
            old(self).pending().len() == 0 ==> r.is_none() && final(self).pending() == old(
                self,
            ).pending(),
            old(self).pending().len() > 0 ==> r.is_some() && r.unwrap().0.cell() == old(
                self,
            ).pending()[0].0 && r.unwrap().1 == old(self).pending()[0].1 && final(self).pending()
                == old(self).pending().drop_first(),
    {
        if self.pending.len() == 0 {
            None
        } else {
            let (cell, value) = self.pending.remove(0);
            assert(self.pending() =~= old(self).pending().drop_first());
            Some((StateValue { cell, marker: PhantomData }, value))
        }
    }
}

/// A pull-based, read-only view of a current value, possibly derived.
pub trait Value<P> {
    type T;

    /// Whether the handle can be read when the sources hold `values`.
    /// Unless an implementation says otherwise, it always can.
    open spec fn readable(&self, values: Seq<P>) -> bool {
        true
    }

    /// Whether `r` is what the handle reads when the sources hold `values`.
    /// Unless an implementation says otherwise, nothing is known of what it
    /// reads.
    open spec fn reads(&self, values: Seq<P>, r: Self::T) -> bool {
        true
    }

    /// The current value. Reading changes nothing, and what is read depends
    /// on the values of the sources alone.
    fn get(&self, graph: &Graph<P>) -> (r: Self::T)
        requires
            self.readable(graph.values()),
        ensures
            self.reads(graph.values(), r),
    ;
}

/// A factory that, given an observer, yields a [`Value`] and subscribes the
/// observer to every source the value depends on.
pub trait Observed<P> {
    type T;

    type V: Value<P, T = Self::T>;

    /// The sources to which `value` subscribes the observer, in the order
    /// in which it does so. Unless an implementation says otherwise, there
    /// are none.
    open spec fn sources(&self) -> Seq<usize> {
        Seq::empty()
    }

    /// Whether a handle made here can be read when the sources hold `values`.
    /// Unless an implementation says otherwise, it always can.
    open spec fn usable(&self, values: Seq<P>) -> bool {
        true
    }

    /// Whether `r` is what a handle made here reads when the sources hold
    /// `values`. Unless an implementation says otherwise, nothing is known
    /// of what it reads.
    open spec fn yields(&self, values: Seq<P>, r: Self::T) -> bool {
        true
    }

    fn value(&self, graph: &mut Graph<P>, observer: ObserverId) -> (v: Self::V)
        requires
            within(self.sources(), old(graph).size()),
        ensures
            final(graph).values() == old(graph).values(),
            final(graph).registries() == subscribed(
                old(graph).registries(),
                self.sources(),
                observer,
            ),
            final(graph).delivered() == old(graph).delivered(),
            final(graph).pending() == old(graph).pending(),
            forall|values: Seq<P>|
                #![trigger v.readable(values)]
                #![trigger self.usable(values)]
                self.usable(values) ==> v.readable(values),
            forall|values: Seq<P>, r: Self::T|
                #![trigger v.reads(values, r)]
                #![trigger self.yields(values, r)]
                v.reads(values, r) ==> self.yields(values, r),
    ;
}

/// A handle that reads the same value whatever the sources hold.
pub struct FixedValue<T: Copy> {
    value: T,
}

impl<T: Copy> Clone for FixedValue<T> {
    fn clone(&self) -> (r: Self)
        ensures
            r == *self,
    {
        FixedValue { value: self.value }
    }
}

impl<T: Copy> Copy for FixedValue<T> {

}

impl<T: Copy> FixedValue<T> {
    /// The value that the handle reads.
    pub closed spec fn constant(&self) -> T {
        self.value
    }
}

impl<P, T: Copy> Value<P> for FixedValue<T> {
    type T = T;

    open spec fn readable(&self, values: Seq<P>) -> bool {
        true
    }

    open spec fn reads(&self, values: Seq<P>, r: T) -> bool {
        r == self.constant()
    }

    fn get(&self, graph: &Graph<P>) -> (r: T) {
        self.value
    }
}

/// A constant source: it has no subscribers, since it never changes.
pub struct FixedObserved<T: Copy> {
    value: FixedValue<T>,
}

impl<T: Copy> Clone for FixedObserved<T> {
    fn clone(&self) -> (r: Self)
        ensures
            r == *self,
    {
        FixedObserved { value: self.value }
    }
}

impl<T: Copy> Copy for FixedObserved<T> {

}

impl<T: Copy> FixedObserved<T> {
    /// The constant that every handle made here reads.
    pub closed spec fn constant(&self) -> T {
        self.value.value
    }
}

impl<P, T: Copy> Observed<P> for FixedObserved<T> {
    type T = T;

    type V = FixedValue<T>;

    open spec fn sources(&self) -> Seq<usize> {
        Seq::empty()
    }

    open spec fn usable(&self, values: Seq<P>) -> bool {
        true
    }

    open spec fn yields(&self, values: Seq<P>, r: T) -> bool {
        r == self.constant()
    }

    fn value(&self, graph: &mut Graph<P>, observer: ObserverId) -> (v: FixedValue<T>)
        ensures
            v.constant() == self.constant(),
    {
        self.value
    }
}

/// A constant source that holds `t`.
pub fn fixed<T: Copy>(t: T) -> (r: FixedObserved<T>)
    ensures
        r.constant() == t,
{
    FixedObserved::<T> { value: FixedValue::<T> { value: t } }
}

/// A handle that reads the current value of one mutable source. It records
/// on whose behalf it was made.
pub struct StateValueValue<T> {
    cell: usize,
    observer: ObserverId,
    marker: PhantomData<T>,
}

impl<T> StateValueValue<T> {
    /// The index of the source that the handle reads.
    pub closed spec fn cell(&self) -> usize {
        self.cell
    }

    /// The observer for which the handle was made.
    pub closed spec fn observer(&self) -> ObserverId {
        self.observer
    }
}

impl<T: Copy> Value<T> for StateValueValue<T> {
    type T = T;

    open spec fn readable(&self, values: Seq<T>) -> bool {
        self.cell() < values.len()
    }

    open spec fn reads(&self, values: Seq<T>, r: T) -> bool {
        r == values[self.cell() as int]
    }

    fn get(&self, graph: &Graph<T>) -> (r: T) {
        graph.read(self.cell)
    }
}

/// The only mutable node of a graph: both the write side of one source
/// (`set`) and the factory of handles that read it (`value`). Copies name
/// the same source.
pub struct StateValue<T> {
    cell: usize,
    marker: PhantomData<T>,
}

impl<T> Clone for StateValue<T> {
    fn clone(&self) -> (r: Self)
        ensures
            r == *self,
    {
        StateValue { cell: self.cell, marker: PhantomData }
    }
}

impl<T> Copy for StateValue<T> {

}

impl<T> StateValue<T> {
    /// The index of the source in its graph.
    pub closed spec fn cell(&self) -> usize {
        self.cell
    }

    /// The index of the source in its graph.
    pub fn index(&self) -> (i: usize)
        ensures
            i == self.cell(),
    {
        self.cell
    }
}

impl<T: Copy> Observed<T> for StateValue<T> {
    type T = T;

    type V = StateValueValue<T>;

    open spec fn sources(&self) -> Seq<usize> {
        seq![self.cell()]
    }

    open spec fn usable(&self, values: Seq<T>) -> bool {
        self.cell() < values.len()
    }

    open spec fn yields(&self, values: Seq<T>, r: T) -> bool {
        r == values[self.cell() as int]
    }

    fn value(&self, graph: &mut Graph<T>, observer: ObserverId) -> (v: StateValueValue<T>)
        ensures
            v.cell() == self.cell(),
            v.observer() == observer,
            final(graph).registries() == old(graph).registries().update(
                self.cell() as int,
                old(graph).registries()[self.cell() as int].push(observer),
            ),
    {
        proof {
            let one = seq![self.cell];
            assert(one[0] < graph.size());
            assert(one.drop_last() =~= Seq::<usize>::empty());
            assert(subscribed(graph.registries(), one, observer) == graph.registries().update(
                self.cell as int,
                graph.registries()[self.cell as int].push(observer),
            )) by {
                reveal_with_fuel(subscribed, 2);
            }
        }
        graph.subscribe(self.cell, observer);
        StateValueValue { cell: self.cell, observer, marker: PhantomData }
    }
}

impl<T: Copy> StateValue<T> {
    /// Adds a source to `graph` that holds `initial` and has no subscriber.
    pub fn new(graph: &mut Graph<T>, initial: T) -> (r: StateValue<T>)
        ensures
            r.cell() == old(graph).size(),
            final(graph).values() == old(graph).values().push(initial),
            final(graph).registries() == old(graph).registries().push(Seq::empty()),
            final(graph).delivered() == old(graph).delivered(),
            final(graph).pending() == old(graph).pending(),
    {
        let cell = graph.insert(initial);
        StateValue { cell, marker: PhantomData }
    }

    /// The number of entries in the registry of this source, those of
    /// released observers that no notify pass has dropped yet included.
    pub fn subscriptions(&self, graph: &Graph<T>) -> (n: usize)
        requires
            self.cell() < graph.size(),
        ensures
            n == graph.registries()[self.cell() as int].len(),
    {
        graph.cells[self.cell].registry.len()
    }

    /// Drops from the registry of this source the entries whose observer is
    /// gone, and returns the others in the order of their subscription.
    fn lock_observers<O>(&mut self, graph: &mut Graph<T>, observers: &Observers<O>) -> (r: Vec<
        ObserverId,
    >)
        requires
            old(self).cell() < old(graph).size(),
        ensures
            *final(self) == *old(self),
            r@ == live(old(graph).registries()[old(self).cell() as int], observers),
            final(graph).values() == old(graph).values(),
            final(graph).registries() == old(graph).registries().update(
                old(self).cell() as int,
                r@,
            ),
            final(graph).delivered() == old(graph).delivered(),
            final(graph).pending() == old(graph).pending(),
    {
        let cell = self.cell;
        let value = graph.cells[cell].value;
        let mut registry: Vec<ObserverId> = Vec::new();
        std::mem::swap(&mut registry, &mut graph.cells[cell].registry);
        let mut kept: Vec<ObserverId> = Vec::new();
        let mut r: Vec<ObserverId> = Vec::new();
        let mut i: usize = 0;
        proof {
            reveal(Seq::filter);
            assert(registry@.take(0) =~= Seq::<ObserverId>::empty());
        }
        while i < registry.len()
            invariant
                i <= registry.len(),
                kept@ == live(registry@.take(i as int), observers),
                r@ == kept@,
            decreases registry.len() - i,
        {
            let id = registry[i];
            proof {
                reveal(Seq::filter);
                assert(registry@.take(i + 1).drop_last() =~= registry@.take(i as int));
                assert(registry@.take(i + 1).last() == id);
            }
            if observers.is_alive(id) {
                kept.push(id);
                r.push(id);
            }
            i += 1;
        }
        proof {
            assert(registry@.take(i as int) =~= registry@);
        }
        graph.cells.set(cell, Cell { value, registry: kept });
        proof {
            assert(graph.values() =~= old(graph).values());
            assert(graph.registries() =~= old(graph).registries().update(cell as int, r@));
        }
        r
    }

    /// Replaces the value of this source, then runs a notify pass: every
    /// subscriber that is still alive is notified once for each of its
    /// subscriptions, in the order of subscription, and the others leave
    /// the registry. Returns the number of notifications sent.
    ///
    /// All notifications are sent before `set` returns, and each observer
    /// sees the new value. Nothing changes while the pass is running. What
    /// the observers asked for is done when the pass is over, in the order
    /// in which they asked: subscriptions are made, so a new entry is in
    /// the registry when `set` returns, and requests to set a source join
    /// the queue of the graph, from where `Graph::next_set` hands them out.
    pub fn set<O: Observer<T>>(
        &mut self,
        graph: &mut Graph<T>,
        value: T,
        observers: &Observers<O>,
    ) -> (r: usize)
        requires
            old(self).cell() < old(graph).size(),
        ensures
            *final(self) == *old(self),
            final(graph).values() == old(graph).values().update(old(self).cell() as int, value),
            final(graph).delivered() == old(graph).delivered() + deliveries(
                live(old(graph).registries()[old(self).cell() as int], observers),
                final(graph).values(),
            ),
            final(graph).registries() == subscriptions_made(
                old(graph).registries().update(
                    old(self).cell() as int,
                    live(old(graph).registries()[old(self).cell() as int], observers),
                ),
                asked(
                    live(old(graph).registries()[old(self).cell() as int], observers),
                    observers,
                    final(graph).values(),
                ),
            ),
            final(graph).pending() == old(graph).pending() + sets_asked(
                asked(
                    live(old(graph).registries()[old(self).cell() as int], observers),
                    observers,
                    final(graph).values(),
                ),
            ),
            r == live(old(graph).registries()[old(self).cell() as int], observers).len(),
    {
        let cell = self.cell;
        let mut registry: Vec<ObserverId> = Vec::new();
        std::mem::swap(&mut registry, &mut graph.cells[cell].registry);
        graph.cells.set(cell, Cell { value, registry });
        proof {
            assert(graph.values() =~= old(graph).values().update(cell as int, value));
            assert(graph.registries() =~= old(graph).registries());
        }
        let notified = self.lock_observers(graph, observers);
        let ghost pass = notified@;
        let ghost before = graph.delivered();
        let ghost values = graph.values();
        let mut wanted: Vec<Request<T>> = Vec::new();
        let mut i: usize = 0;
        while i < notified.len()
            invariant
                i <= notified.len(),
                notified@ == pass,
                pass == live(old(graph).registries()[cell as int], observers),
                graph.values() == values,
                graph.registries() == old(graph).registries().update(cell as int, pass),
                graph.pending() == old(graph).pending(),
                graph.delivered() == before + deliveries(pass.take(i as int), values),
                wanted@ == asked(pass.take(i as int), observers, values),
            decreases notified.len() - i,
        {
            let id = notified[i];
            proof {
                old(graph).registries()[cell as int].lemma_filter_pred(alive_in(observers), i as int);
                assert(observers.alive(id));
                assert(pass.take(i + 1).drop_last() =~= pass.take(i as int));
                assert(pass.take(i + 1).last() == id);
            }
            match observers.get(id) {
                Some(observer) => {
                    let mut requests = observer.update(graph);
                    wanted.append(&mut requests);
                    proof {
                        graph.delivered@ = graph.delivered@.push(Delivery { observer: id, values });
                    }
                },
                None => {
                    assert(false);
                },
            }
            proof {
                assert(graph.delivered() =~= before + deliveries(pass.take(i + 1), values));
            }
            i += 1;
        }
        proof {
            assert(pass.take(i as int) =~= pass);
        }
        graph.serve(&wanted);
        notified.len()
    }
}

/// What `handle` reads now: `handle.get(graph)`, under the type that the
/// caller knows the value to have.
pub fn pull<P, T, V: Value<P, T = T>>(handle: &V, graph: &Graph<P>) -> (r: T)
    requires
        handle.readable(graph.values()),
    ensures
        handle.reads(graph.values(), r),
{
    handle.get(graph)
}

/// Another owner of what `rc` owns.
///
/// Wraps `Rc::clone`: the new pointer leads to the same allocation, so what
/// it holds is what `rc` holds.
#[verifier::external_body]
fn share<T>(rc: &Rc<T>) -> (r: Rc<T>)
    ensures
        *r == **rc,
{
    Rc::clone(rc)
}

/// A handle that applies a function to what another handle reads, anew on
/// every read.
pub struct ValueMap<S, F> {
    underlying: S,
    adapter: Rc<F>,
}

impl<S, F> ValueMap<S, F> {
    /// The handle whose value is transformed.
    pub closed spec fn underlying(&self) -> S {
        self.underlying
    }

    /// The function that transforms it.
    pub closed spec fn adapter(&self) -> F {
        *self.adapter
    }
}

impl<P, S: Value<P>, U, F: Fn(S::T) -> U> Value<P> for ValueMap<S, F> {
    type T = U;

    open spec fn readable(&self, values: Seq<P>) -> bool {
        &&& self.underlying().readable(values)
        &&& forall|u: S::T| #[trigger]
            self.underlying().reads(values, u) ==> call_requires(self.adapter(), (u,))
    }

    open spec fn reads(&self, values: Seq<P>, r: U) -> bool {
        exists|u: S::T| #[trigger]
            self.underlying().reads(values, u) && call_ensures(self.adapter(), (u,), r)
    }

    fn get(&self, graph: &Graph<P>) -> (r: U) {
        let u = self.underlying.get(graph);
        let adapter: &F = &self.adapter;
        adapter(u)
    }
}

/// A handle that reads a pair: one value from each of two handles.
pub struct ValueJoin<L, R> {
    left: L,
    right: R,
}

impl<L, R> ValueJoin<L, R> {
    /// The handle that gives the first value of the pair.
    pub closed spec fn left(&self) -> L {
        self.left
    }

    /// The handle that gives the second value of the pair.
    pub closed spec fn right(&self) -> R {
        self.right
    }
}

impl<P, L: Value<P>, R: Value<P>> Value<P> for ValueJoin<L, R> {
    type T = (L::T, R::T);

    open spec fn readable(&self, values: Seq<P>) -> bool {
        self.left().readable(values) && self.right().readable(values)
    }

    open spec fn reads(&self, values: Seq<P>, r: (L::T, R::T)) -> bool {
        self.left().reads(values, r.0) && self.right().reads(values, r.1)
    }

    fn get(&self, graph: &Graph<P>) -> (r: (L::T, R::T)) {
        (self.left.get(graph), self.right.get(graph))
    }
}

/// The combinators on handles.
pub trait ValueExt<P>: Value<P> + Sized {
    /// A handle that reads `adapter` of what this handle reads. The function
    /// is applied anew on every read, so it should return the same for the
    /// same input.
    fn map<U, F: Fn(Self::T) -> U>(self, adapter: F) -> (r: ValueMap<Self, F>)
        ensures
            r.underlying() == self,
            r.adapter() == adapter,
            forall|values: Seq<P>| #[trigger]
                r.readable(values) == (self.readable(values) && forall|u: Self::T| #[trigger]
                    self.reads(values, u) ==> call_requires(adapter, (u,))),
            forall|values: Seq<P>, x: U| #[trigger]
                r.reads(values, x) == (exists|u: Self::T| #[trigger]
                    self.reads(values, u) && call_ensures(adapter, (u,), x)),
    ;

    /// A handle that reads what this handle and `other` read, as a pair.
    fn join<R: Value<P>>(self, other: R) -> (r: ValueJoin<Self, R>)
        ensures
            r.left() == self,
            r.right() == other,
            forall|values: Seq<P>| #[trigger]
                r.readable(values) == (self.readable(values) && other.readable(values)),
            forall|values: Seq<P>, x: (Self::T, R::T)| #[trigger]
                r.reads(values, x) == (self.reads(values, x.0) && other.reads(values, x.1)),
    ;
}

impl<P, S: Value<P>> ValueExt<P> for S {
    fn map<U, F: Fn(S::T) -> U>(self, adapter: F) -> (r: ValueMap<Self, F>) {
        let r = ValueMap::<Self, F> { underlying: self, adapter: Rc::new(adapter) };
        proof {
            assert forall|values: Seq<P>, x: U| #[trigger]
                r.reads(values, x) == (exists|u: S::T| #[trigger]
                    self.reads(values, u) && call_ensures(adapter, (u,), x)) by {
                if r.reads(values, x) {
                    let u = choose|u: S::T| #[trigger]
                        r.underlying().reads(values, u) && call_ensures(r.adapter(), (u,), x);
                    assert(self.reads(values, u) && call_ensures(adapter, (u,), x));
                }
                if exists|u: S::T| #[trigger]
                    self.reads(values, u) && call_ensures(adapter, (u,), x) {
                    let u = choose|u: S::T| #[trigger]
                        self.reads(values, u) && call_ensures(adapter, (u,), x);
                    assert(r.underlying().reads(values, u) && call_ensures(r.adapter(), (u,), x));
                }
            }
        }
        r
    }

    fn join<R: Value<P>>(self, other: R) -> (r: ValueJoin<Self, R>) {
        ValueJoin::<Self, R> { left: self, right: other }
    }
}

/// Subscribing to `first` and then to `second` is subscribing to the two in
/// a row.
pub proof fn lemma_subscribed_in_turn(
    registries: Seq<Seq<ObserverId>>,
    first: Seq<usize>,
    second: Seq<usize>,
    observer: ObserverId,
)
    ensures
        subscribed(subscribed(registries, first, observer), second, observer) == subscribed(
            registries,
            first + second,
            observer,
        ),
    decreases second.len(),
{
    if second.len() == 0 {
        assert(first + second =~= first);
    } else {
        lemma_subscribed_in_turn(registries, first, second.drop_last(), observer);
        assert((first + second).drop_last() =~= first + second.drop_last());
        assert((first + second).last() == second.last());
    }
}

/// A source that applies a function to the values of another source. The
/// observer subscribes where the other source subscribes it.
pub struct ObservedMap<S, F> {
    underlying: S,
    map: Rc<F>,
}

impl<S, F> ObservedMap<S, F> {
    /// The source whose values are transformed.
    pub closed spec fn underlying(&self) -> S {
        self.underlying
    }

    /// The function that transforms them.
    pub closed spec fn adapter(&self) -> F {
        *self.map
    }
}

impl<S: Clone, F> Clone for ObservedMap<S, F> {
    fn clone(&self) -> (r: Self)
        ensures
            cloned(self.underlying(), r.underlying()),
            r.adapter() == self.adapter(),
    {
        Self { underlying: self.underlying.clone(), map: share(&self.map) }
    }
}

impl<P, S: Observed<P>, U, F: Fn(S::T) -> U> Observed<P> for ObservedMap<S, F> {
    type T = U;

    type V = ValueMap<S::V, F>;

    open spec fn sources(&self) -> Seq<usize> {
        self.underlying().sources()
    }

    open spec fn usable(&self, values: Seq<P>) -> bool {
        &&& self.underlying().usable(values)
        &&& forall|u: S::T| #[trigger]
            self.underlying().yields(values, u) ==> call_requires(self.adapter(), (u,))
    }

    open spec fn yields(&self, values: Seq<P>, r: U) -> bool {
        exists|u: S::T| #[trigger]
            self.underlying().yields(values, u) && call_ensures(self.adapter(), (u,), r)
    }

    fn value(&self, graph: &mut Graph<P>, observer: ObserverId) -> (v: ValueMap<S::V, F>)
        ensures
            v.adapter() == self.adapter(),
    {
        let underlying = self.underlying.value(graph, observer);
        let v = ValueMap::<S::V, F> { underlying, adapter: share(&self.map) };
        proof {
            assert(v.underlying() == underlying);
            assert forall|values: Seq<P>| self.usable(values) implies v.readable(values) by {
                assert(underlying.readable(values));
                assert forall|u: S::T| #[trigger]
                    underlying.reads(values, u) implies call_requires(v.adapter(), (u,)) by {
                    assert(self.underlying().yields(values, u));
                }
            }
            assert forall|values: Seq<P>, r: U| v.reads(values, r) implies self.yields(
                values,
                r,
            ) by {
                let u = choose|u: S::T| #[trigger]
                    underlying.reads(values, u) && call_ensures(v.adapter(), (u,), r);
                assert(self.underlying().yields(values, u));
            }
        }
        v
    }
}

/// A source of pairs: one value from each of two sources. The observer
/// subscribes to both sides.
pub struct ObservedJoin<L, R> {
    left: L,
    right: R,
}

impl<L, R> ObservedJoin<L, R> {
    /// The source of the first value of each pair.
    pub closed spec fn left(&self) -> L {
        self.left
    }

    /// The source of the second value of each pair.
    pub closed spec fn right(&self) -> R {
        self.right
    }
}

impl<P, L: Observed<P>, R: Observed<P>> Observed<P> for ObservedJoin<L, R> {
    type T = (L::T, R::T);

    type V = ValueJoin<L::V, R::V>;

    open spec fn sources(&self) -> Seq<usize> {
        self.left().sources() + self.right().sources()
    }

    open spec fn usable(&self, values: Seq<P>) -> bool {
        self.left().usable(values) && self.right().usable(values)
    }

    open spec fn yields(&self, values: Seq<P>, r: (L::T, R::T)) -> bool {
        self.left().yields(values, r.0) && self.right().yields(values, r.1)
    }

    fn value(&self, graph: &mut Graph<P>, observer: ObserverId) -> (v: ValueJoin<L::V, R::V>) {
        proof {
            let both = self.left.sources() + self.right.sources();
            assert forall|i: int| 0 <= i < self.left.sources().len() implies self.left.sources()[i]
                < graph.size() by {
                assert(both[i] == self.left.sources()[i]);
            }
            assert forall|i: int| 0 <= i < self.right.sources().len() implies self.right.sources()[i]
                < graph.size() by {
                assert(both[self.left.sources().len() + i] == self.right.sources()[i]);
            }
            lemma_subscribed_in_turn(
                graph.registries(),
                self.left.sources(),
                self.right.sources(),
                observer,
            );
        }
        let left = self.left.value(graph, observer);
        let right = self.right.value(graph, observer);
        ValueJoin::<L::V, R::V> { left, right }
    }
}

/// The combinators on sources.
pub trait ObservedExt<P>: Observed<P> + Sized {
    /// A source whose values are `f` of the values of this source. The
    /// function is applied anew on every read of a handle, so it should
    /// return the same for the same input. An observer subscribes where this
    /// source subscribes it.
    fn map<U, F: Fn(Self::T) -> U>(self, f: F) -> (r: ObservedMap<Self, F>)
        ensures
            r.underlying() == self,
            r.adapter() == f,
            r.sources() == self.sources(),
            forall|values: Seq<P>| #[trigger]
                r.usable(values) == (self.usable(values) && forall|u: Self::T| #[trigger]
                    self.yields(values, u) ==> call_requires(f, (u,))),
            forall|values: Seq<P>, x: U| #[trigger]
                r.yields(values, x) == (exists|u: Self::T| #[trigger]
                    self.yields(values, u) && call_ensures(f, (u,), x)),
    ;

    /// A source whose values pair a value of this source with one of
    /// `other`. An observer subscribes to the sources of this side first,
    /// then to those of `other`.
    fn join<X: Observed<P>>(self, other: X) -> (r: ObservedJoin<Self, X>)
        ensures
            r.left() == self,
            r.right() == other,
            r.sources() == self.sources() + other.sources(),
            forall|values: Seq<P>| #[trigger]
                r.usable(values) == (self.usable(values) && other.usable(values)),
            forall|values: Seq<P>, x: (Self::T, X::T)| #[trigger]
                r.yields(values, x) == (self.yields(values, x.0) && other.yields(values, x.1)),
    ;

    /// Asks this source for its value once, for `observer`, and wraps the
    /// handle so that any number of branches can share it. The one
    /// subscription is made here; taking a handle later makes none.
    fn split(self, graph: &mut Graph<P>, observer: ObserverId) -> (r: ObservedSplit<Self::V>)
        requires
            within(self.sources(), old(graph).size()),
        ensures
            final(graph).values() == old(graph).values(),
            final(graph).registries() == subscribed(
                old(graph).registries(),
                self.sources(),
                observer,
            ),
            final(graph).delivered() == old(graph).delivered(),
            final(graph).pending() == old(graph).pending(),
            r.sources() == Seq::<usize>::empty(),
            forall|values: Seq<P>| self.usable(values) ==> #[trigger] r.usable(values),
            forall|values: Seq<P>, x: Self::T| #[trigger]
                r.yields(values, x) ==> self.yields(values, x),
    ;

    /// A source whose values are `transform` of the observer for which a
    /// handle is made and of the values of this source. An observer
    /// subscribes where this source subscribes it.
    fn fuse<U, F: Fn(ObserverId, Self::T) -> U>(self, transform: F) -> (r: ObservedFuse<Self, F>)
        ensures
            r.underlying() == self,
            r.transform() == transform,
            r.sources() == self.sources(),
            forall|values: Seq<P>| #[trigger]
                r.usable(values) == (self.usable(values) && forall|o: ObserverId, u: Self::T|
                    #[trigger]
                    call_requires(transform, (o, u)) || !self.yields(values, u)),
            forall|values: Seq<P>, x: U| #[trigger]
                r.yields(values, x) == (exists|o: ObserverId, u: Self::T| #[trigger]
                    call_ensures(transform, (o, u), x) && self.yields(values, u)),
    ;
}

impl<P, S: Observed<P>> ObservedExt<P> for S {
    fn map<U, F: Fn(S::T) -> U>(self, f: F) -> (r: ObservedMap<Self, F>) {
        let r = ObservedMap::<Self, F> { underlying: self, map: Rc::new(f) };
        proof {
            assert forall|values: Seq<P>, x: U| #[trigger]
                r.yields(values, x) == (exists|u: S::T| #[trigger]
                    self.yields(values, u) && call_ensures(f, (u,), x)) by {
                if r.yields(values, x) {
                    let u = choose|u: S::T| #[trigger]
                        r.underlying().yields(values, u) && call_ensures(r.adapter(), (u,), x);
                    assert(self.yields(values, u) && call_ensures(f, (u,), x));
                }
                if exists|u: S::T| #[trigger] self.yields(values, u) && call_ensures(f, (u,), x) {
                    let u = choose|u: S::T| #[trigger]
                        self.yields(values, u) && call_ensures(f, (u,), x);
                    assert(r.underlying().yields(values, u) && call_ensures(r.adapter(), (u,), x));
                }
            }
        }
        r
    }

    fn join<X: Observed<P>>(self, other: X) -> (r: ObservedJoin<Self, X>) {
        ObservedJoin::<Self, X> { left: self, right: other }
    }

    fn split(self, graph: &mut Graph<P>, observer: ObserverId) -> (r: ObservedSplit<S::V>) {
        let shared = self.value(graph, observer);
        ObservedSplit { shared: Rc::new(shared) }
    }

    fn fuse<U, F: Fn(ObserverId, S::T) -> U>(self, transform: F) -> (r: ObservedFuse<Self, F>) {
        let r = ObservedFuse::<Self, F> { underlying: self, transform: Rc::new(transform) };
        proof {
            assert forall|values: Seq<P>, x: U| #[trigger]
                r.yields(values, x) == (exists|o: ObserverId, u: S::T| #[trigger]
                    call_ensures(transform, (o, u), x) && self.yields(values, u)) by {
                if r.yields(values, x) {
                    let (o, u) = choose|o: ObserverId, u: S::T| #[trigger]
                        call_ensures(r.transform(), (o, u), x) && r.underlying().yields(
                            values,
                            u,
                        );
                    assert(call_ensures(transform, (o, u), x) && self.yields(values, u));
                }
                if exists|o: ObserverId, u: S::T| #[trigger]
                    call_ensures(transform, (o, u), x) && self.yields(values, u) {
                    let (o, u) = choose|o: ObserverId, u: S::T| #[trigger]
                        call_ensures(transform, (o, u), x) && self.yields(values, u);
                    assert(call_ensures(r.transform(), (o, u), x) && r.underlying().yields(
                        values,
                        u,
                    ));
                }
            }
        }
        r
    }
}

/// Whether every clone of `source` is `source` again. The sources of this
/// library are cloned so.
pub open spec fn clones_alike<S: Clone>(source: S) -> bool {
    forall|c: S| #[trigger] cloned(source, c) ==> c == source
}

/// Whether the handles that `source` makes read one value only when the
/// sources hold `values`.
pub open spec fn steady<P, S: Observed<P>>(source: S, values: Seq<P>) -> bool {
    forall|a: S::T, b: S::T|
        #![trigger source.yields(values, a), source.yields(values, b)]
        source.yields(values, a) && source.yields(values, b) ==> a == b
}

/// A mapped source is cloned alike if the source that it maps is.
pub proof fn lemma_map_clones_alike<S: Clone, F>(mapped: ObservedMap<S, F>)
    requires
        clones_alike(mapped.underlying()),
    ensures
        clones_alike(mapped),
{
    assert forall|c: ObservedMap<S, F>| #[trigger] cloned(mapped, c) implies c == mapped by {
        if c != mapped {
            assert(cloned(mapped.underlying(), c.underlying()));
            assert(c.underlying() == mapped.underlying());
            assert(c.adapter() == mapped.adapter());
        }
    }
}

/// A fused source is cloned alike if the source that it transforms is.
pub proof fn lemma_fuse_clones_alike<S: Clone, F>(fused: ObservedFuse<S, F>)
    requires
        clones_alike(fused.underlying()),
    ensures
        clones_alike(fused),
{
    assert forall|c: ObservedFuse<S, F>| #[trigger] cloned(fused, c) implies c == fused by {
        if c != fused {
            assert(cloned(fused.underlying(), c.underlying()));
            assert(c.underlying() == fused.underlying());
            assert(c.transform() == fused.transform());
        }
    }
}

/// Whether `f` returns one result only for each input: a pure, repeatable
/// function.
pub open spec fn functional<A, B, F: Fn(A) -> B>(f: F) -> bool {
    forall|a: A, x: B, y: B|
        #![trigger call_ensures(f, (a,), x), call_ensures(f, (a,), y)]
        call_ensures(f, (a,), x) && call_ensures(f, (a,), y) ==> x == y
}

/// A mapped source is steady where the function gives one result only for
/// all that the source underneath yields.
pub proof fn lemma_map_steady<P, S: Observed<P>, U, F: Fn(S::T) -> U>(
    mapped: ObservedMap<S, F>,
    values: Seq<P>,
)
    requires
        forall|a: S::T, b: S::T, x: U, y: U|
            #![trigger call_ensures(mapped.adapter(), (a,), x), call_ensures(mapped.adapter(), (b,), y)]
            mapped.underlying().yields(values, a) && mapped.underlying().yields(values, b)
                && call_ensures(mapped.adapter(), (a,), x) && call_ensures(
                mapped.adapter(),
                (b,),
                y,
            ) ==> x == y,
    ensures
        steady(mapped, values),
{
    assert forall|x: U, y: U|
        #![trigger mapped.yields(values, x), mapped.yields(values, y)]
        mapped.yields(values, x) && mapped.yields(values, y) implies x == y by {
        let a = choose|u: S::T| #[trigger]
            mapped.underlying().yields(values, u) && call_ensures(mapped.adapter(), (u,), x);
        let b = choose|u: S::T| #[trigger]
            mapped.underlying().yields(values, u) && call_ensures(mapped.adapter(), (u,), y);
        assert(call_ensures(mapped.adapter(), (a,), x) && call_ensures(
            mapped.adapter(),
            (b,),
            y,
        ));
    }
}

impl<P, V: Value<P>> Value<P> for Rc<V> {
    type T = V::T;

    open spec fn readable(&self, values: Seq<P>) -> bool {
        (**self).readable(values)
    }

    open spec fn reads(&self, values: Seq<P>, r: V::T) -> bool {
        (**self).reads(values, r)
    }

    fn get(&self, graph: &Graph<P>) -> (r: V::T) {
        let shared: &V = self;
        shared.get(graph)
    }
}

/// A source that was asked for its value once, for one observer, and hands
/// out that one handle as often as it is asked: every branch that takes a
/// handle reads through the same subscription. That subscription belongs
/// to the observer that was given to `split`. The observer given to `value`
/// is not looked at: if it is another one, it is not subscribed and no
/// mutation upstream will notify it.
pub struct ObservedSplit<V> {
    shared: Rc<V>,
}

impl<V> ObservedSplit<V> {
    /// The handle that all branches share.
    pub closed spec fn shared(&self) -> V {
        *self.shared
    }

    /// One more owner of the shared handle. Nothing is subscribed and
    /// nothing upstream is asked again.
    pub fn take(&self) -> (r: Rc<V>)
        ensures
            *r == self.shared(),
    {
        share(&self.shared)
    }
}

impl<V> Clone for ObservedSplit<V> {
    fn clone(&self) -> (r: Self)
        ensures
            r == *self,
    {
        ObservedSplit { shared: share(&self.shared) }
    }
}

impl<P, V: Value<P>> Observed<P> for ObservedSplit<V> {
    type T = V::T;

    type V = Rc<V>;

    open spec fn sources(&self) -> Seq<usize> {
        Seq::empty()
    }

    open spec fn usable(&self, values: Seq<P>) -> bool {
        self.shared().readable(values)
    }

    open spec fn yields(&self, values: Seq<P>, r: V::T) -> bool {
        self.shared().reads(values, r)
    }

    fn value(&self, graph: &mut Graph<P>, observer: ObserverId) -> (v: Rc<V>)
        ensures
            *v == self.shared(),
            final(graph).registries() == old(graph).registries(),
    {
        let v = self.take();
        proof {
            assert forall|values: Seq<P>| self.usable(values) implies v.readable(values) by {
                assert((*v).readable(values));
            }
            assert forall|values: Seq<P>, r: V::T| v.reads(values, r) implies self.yields(
                values,
                r,
            ) by {
                assert((*v).reads(values, r));
            }
        }
        v
    }
}

/// A source that transforms the values of another source by a function
/// that is also told for which observer it works. The function runs on
/// every read of a handle, and a read changes nothing: the function can
/// name the observer in what it returns, but it subscribes nobody. Further
/// sources are brought in by joining them to the fused source, which
/// subscribes the same observer to them.
pub struct ObservedFuse<S, F> {
    underlying: S,
    transform: Rc<F>,
}

impl<S, F> ObservedFuse<S, F> {
    /// The source whose values are transformed.
    pub closed spec fn underlying(&self) -> S {
        self.underlying
    }

    /// The function that transforms them.
    pub closed spec fn transform(&self) -> F {
        *self.transform
    }
}

impl<S: Clone, F> Clone for ObservedFuse<S, F> {
    fn clone(&self) -> (r: Self)
        ensures
            cloned(self.underlying(), r.underlying()),
            r.transform() == self.transform(),
    {
        Self { underlying: self.underlying.clone(), transform: share(&self.transform) }
    }
}

/// A handle that transforms what another handle reads by a function that
/// is also told for which observer the handle was made.
pub struct ValueFuse<V, F> {
    underlying: V,
    observer: ObserverId,
    transform: Rc<F>,
}

impl<V, F> ValueFuse<V, F> {
    /// The handle whose value is transformed.
    pub closed spec fn underlying(&self) -> V {
        self.underlying
    }

    /// The observer for which the handle was made.
    pub closed spec fn observer(&self) -> ObserverId {
        self.observer
    }

    /// The function that transforms the value.
    pub closed spec fn transform(&self) -> F {
        *self.transform
    }
}

impl<P, V: Value<P>, U, F: Fn(ObserverId, V::T) -> U> Value<P> for ValueFuse<V, F> {
    type T = U;

    open spec fn readable(&self, values: Seq<P>) -> bool {
        &&& self.underlying().readable(values)
        &&& forall|u: V::T| #[trigger]
            self.underlying().reads(values, u) ==> call_requires(
                self.transform(),
                (self.observer(), u),
            )
    }

    open spec fn reads(&self, values: Seq<P>, r: U) -> bool {
        exists|u: V::T| #[trigger]
            self.underlying().reads(values, u) && call_ensures(
                self.transform(),
                (self.observer(), u),
                r,
            )
    }

    fn get(&self, graph: &Graph<P>) -> (r: U) {
        let u = self.underlying.get(graph);
        let transform: &F = &self.transform;
        transform(self.observer, u)
    }
}

impl<P, S: Observed<P>, U, F: Fn(ObserverId, S::T) -> U> Observed<P> for ObservedFuse<S, F> {
    type T = U;

    type V = ValueFuse<S::V, F>;

    open spec fn sources(&self) -> Seq<usize> {
        self.underlying().sources()
    }

    open spec fn usable(&self, values: Seq<P>) -> bool {
        &&& self.underlying().usable(values)
        &&& forall|o: ObserverId, u: S::T| #[trigger]
            call_requires(self.transform(), (o, u)) || !self.underlying().yields(values, u)
    }

    open spec fn yields(&self, values: Seq<P>, r: U) -> bool {
        exists|o: ObserverId, u: S::T| #[trigger]
            call_ensures(self.transform(), (o, u), r) && self.underlying().yields(values, u)
    }

    fn value(&self, graph: &mut Graph<P>, observer: ObserverId) -> (v: ValueFuse<S::V, F>)
        ensures
            v.observer() == observer,
            v.transform() == self.transform(),
            forall|values: Seq<P>|
                self.underlying().usable(values) && (forall|u: S::T| #[trigger]
                    self.underlying().yields(values, u) ==> call_requires(
                        self.transform(),
                        (observer, u),
                    )) ==> #[trigger] v.readable(values),
            forall|values: Seq<P>, r: U| #[trigger]
                v.reads(values, r) ==> exists|u: S::T| #[trigger]
                    self.underlying().yields(values, u) && call_ensures(
                        self.transform(),
                        (observer, u),
                        r,
                    ),
    {
        let underlying = self.underlying.value(graph, observer);
        let v = ValueFuse::<S::V, F> { underlying, observer, transform: share(&self.transform) };
        proof {
            assert(v.underlying() == underlying);
            assert forall|values: Seq<P>| self.usable(values) implies v.readable(values) by {
                assert(underlying.readable(values));
                assert forall|u: S::T| #[trigger]
                    underlying.reads(values, u) implies call_requires(
                    v.transform(),
                    (v.observer(), u),
                ) by {
                    assert(self.underlying().yields(values, u));
                    assert(call_requires(self.transform(), (observer, u))
                        || !self.underlying().yields(values, u));
                }
            }
            assert forall|values: Seq<P>, r: U| v.reads(values, r) implies self.yields(
                values,
                r,
            ) by {
                let u = choose|u: S::T| #[trigger]
                    underlying.reads(values, u) && call_ensures(
                        v.transform(),
                        (v.observer(), u),
                        r,
                    );
                assert(call_ensures(self.transform(), (observer, u), r)
                    && self.underlying().yields(values, u));
            }
            assert forall|values: Seq<P>|
                self.underlying().usable(values) && (forall|u: S::T| #[trigger]
                    self.underlying().yields(values, u) ==> call_requires(
                        self.transform(),
                        (observer, u),
                    )) implies #[trigger] v.readable(values) by {
                assert(underlying.readable(values));
                assert forall|u: S::T| #[trigger]
                    underlying.reads(values, u) implies call_requires(
                    v.transform(),
                    (v.observer(), u),
                ) by {
                    assert(self.underlying().yields(values, u));
                }
            }
            assert forall|values: Seq<P>, r: U| #[trigger] v.reads(values, r) implies exists|
                u: S::T,
            | #[trigger]
                self.underlying().yields(values, u) && call_ensures(
                    self.transform(),
                    (observer, u),
                    r,
                ) by {
                let u = choose|u: S::T| #[trigger]
                    underlying.reads(values, u) && call_ensures(
                        v.transform(),
                        (v.observer(), u),
                        r,
                    );
                assert(self.underlying().yields(values, u) && call_ensures(
                    self.transform(),
                    (observer, u),
                    r,
                ));
            }
        }
        v
    }
}

} // verus!
