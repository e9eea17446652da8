//! The event bus: per-type queues of events, double buffered.
//!
//! What is dispatched during a frame lands in the write buffer. What is read
//! during a frame comes from the read buffer. Once per frame the buffers are
//! swapped, so that every event is visible for exactly one frame.

use crate::anymap::{AnyMap, Downcast, IntoBoxed, TypeTag};
use vstd::prelude::*;

verus! {

/// An event in erased form: a value that knows which queue it belongs to.
pub trait RawEvent: Downcast {
    /// Reads the tag of the queue that holds events of this concrete type.
    fn vec_type_id(&self) -> (id: TypeTag)
        ensures
            id == self.tag(),
    ;
}

/// The queue of all events of one concrete type.
pub struct Queue<E: RawEvent> {
    id: TypeTag,
    events: Vec<E>,
}

impl<E: RawEvent> Downcast for Queue<E> {
    closed spec fn tag(&self) -> TypeTag {
        self.id
    }

    fn type_tag(&self) -> (id: TypeTag) {
        self.id
    }
}

impl<E: RawEvent> Queue<E> {
    /// The queued events, oldest first.
    pub closed spec fn events(&self) -> Seq<E> {
        self.events@
    }

    /// Every queued event is of the queue's type.
    pub open spec fn wf(&self) -> bool {
        forall|i: int| 0 <= i < self.events().len() ==> (#[trigger] self.events()[i]).tag() == self.tag()
    }

    /// Creates the empty queue for events of type `id`.
    pub fn new(id: TypeTag) -> (queue: Self)
        ensures
            queue.wf(),
            queue.tag() == id,
            queue.events() == Seq::<E>::empty(),
    {
        Queue { id, events: Vec::new() }
    }

    /// Removes every event.
    pub fn clear(&mut self)
        ensures
            final(self).wf(),
            final(self).tag() == old(self).tag(),
            final(self).events() == Seq::<E>::empty(),
    {
        self.events.clear();
    }

    /// Appends an event of the queue's type. An event of another type is dropped.
    pub fn push(&mut self, element: E)
        requires
            old(self).wf(),
        ensures
            final(self).wf(),
            final(self).tag() == old(self).tag(),
            final(self).events() == (if element.tag() == old(self).tag() {
                old(self).events().push(element)
            } else {
                old(self).events()
            }),
    {
        if element.vec_type_id() == self.id {
            self.events.push(element);
            assert forall|i: int| 0 <= i < self.events().len() implies (#[trigger] self.events()[i]).tag()
                == self.tag() by {
                if i < old(self).events().len() {
                    assert(self.events()[i] == old(self).events()[i]);
                }
            }
        }
    }

    /// The queued events, oldest first.
    pub fn as_slice(&self) -> (r: &[E])
        ensures
            r@ == self.events(),
    {
        self.events.as_slice()
    }
}

/// One buffer of the bus: the queues by the tag of their event type.
pub open spec fn queues<E: RawEvent>(buffer: AnyMap<Queue<E>>) -> Map<TypeTag, Seq<E>> {
    Map::new(|tag: TypeTag| buffer.contains(tag), |tag: TypeTag| buffer.at(tag).events())
}

/// A buffer is well formed when its store is and every queue holds events
/// of its own type only.
pub open spec fn buffer_wf<E: RawEvent>(buffer: AnyMap<Queue<E>>) -> bool {
    &&& buffer.wf()
    &&& forall|i: int| 0 <= i < buffer.items().len() ==> (#[trigger] buffer.items()[i]).wf()
}

/// The events queued under `tag`; none where there is no such queue.
pub open spec fn queued<E>(buffer: Map<TypeTag, Seq<E>>, tag: TypeTag) -> Seq<E> {
    if buffer.dom().contains(tag) {
        buffer[tag]
    } else {
        Seq::empty()
    }
}

/// The state of the bus: what can be read this frame and what was dispatched
/// for the next one.
pub struct Bus<E> {
    /// The queues that reads come from.
    pub read: Map<TypeTag, Seq<E>>,
    /// The queues that dispatches go to.
    pub write: Map<TypeTag, Seq<E>>,
}

impl<E: RawEvent> Bus<E> {
    /// The bus without any queue.
    pub open spec fn empty() -> Self {
        Bus { read: Map::empty(), write: Map::empty() }
    }

    /// What a read of the events of type `tag` returns.
    pub open spec fn read(self, tag: TypeTag) -> Seq<E> {
        queued(self.read, tag)
    }

    /// What is waiting for the next frame under `tag`.
    pub open spec fn pending(self, tag: TypeTag) -> Seq<E> {
        queued(self.write, tag)
    }

    /// The bus after a dispatch: the event is appended to the write queue of
    /// its type, which is created if it was missing.
    pub open spec fn dispatch(self, event: E) -> Self {
        Bus {
            read: self.read,
            write: self.write.insert(event.tag(), self.pending(event.tag()).push(event)),
        }
    }

    /// The bus after a raw dispatch: the event is appended to the write queue
    /// of its type if there is one, and dropped otherwise.
    pub open spec fn dispatch_raw(self, event: E) -> Self {
        if self.write.dom().contains(event.tag()) {
            self.dispatch(event)
        } else {
            self
        }
    }

    /// The bus after both queues for `tag` have been made sure of.
    pub open spec fn ensure(self, tag: TypeTag) -> Self {
        Bus {
            read: self.read.insert(tag, queued(self.read, tag)),
            write: self.write.insert(tag, queued(self.write, tag)),
        }
    }

    /// The bus after a swap: what was dispatched becomes readable, and the
    /// queues that were readable become the empty queues to dispatch to.
    pub open spec fn swap(self) -> Self {
        Bus { read: self.write, write: emptied(self.read) }
    }

    /// The bus after the raw dispatch of `events` one after the other.
    pub open spec fn dispatch_raw_all(self, events: Seq<E>) -> Self
        decreases events.len(),
    {
        if events.len() == 0 {
            self
        } else {
            self.dispatch_raw_all(events.drop_last()).dispatch_raw(events.last())
        }
    }

    /// The events of type `T` that a read returns.
    pub open spec fn typed<T: IntoBoxed<E>>(self) -> Seq<T> {
        Seq::new(self.read(T::member_tag()).len(), |i: int| T::unboxed(self.read(T::member_tag())[i]))
    }

    /// The bus after dispatching `events` one after the other.
    pub open spec fn dispatch_all(self, events: Seq<E>) -> Self
        decreases events.len(),
    {
        if events.len() == 0 {
            self
        } else {
            self.dispatch_all(events.drop_last()).dispatch(events.last())
        }
    }
}

/// Appends an event to the queue of its type in `buffer`, creating the queue
/// if it is missing.
fn push_event<E: RawEvent>(buffer: &mut AnyMap<Queue<E>>, event: E)
    requires
        buffer_wf(*old(buffer)),
    ensures
        buffer_wf(*final(buffer)),
        queues(*final(buffer)) == queues(*old(buffer)).insert(
            event.tag(),
            queued(queues(*old(buffer)), event.tag()).push(event),
        ),
{
    let id = event.vec_type_id();
    match buffer.get_mut_raw(id) {
        Some(queue) => {
            queue.push(event);
            proof {
                lemma_queue_set(*old(buffer), *buffer, id, *queue);
            }
        },
        None => {
            let mut queue = Queue::new(id);
            queue.push(event);
            proof {
                assert(!queues(*old(buffer)).dom().contains(id));
            }
            buffer.insert_raw(queue);
            proof {
                lemma_queue_set(*old(buffer), *buffer, id, queue);
            }
        },
    }
}

/// Appends an event to the queue of its type in `buffer` if there is one.
/// Returns whether the event was queued.
fn push_event_raw<E: RawEvent>(buffer: &mut AnyMap<Queue<E>>, event: E) -> (queued_it: bool)
    requires
        buffer_wf(*old(buffer)),
    ensures
        buffer_wf(*final(buffer)),
        queued_it == queues(*old(buffer)).dom().contains(event.tag()),
        queued_it ==> queues(*final(buffer)) == queues(*old(buffer)).insert(
            event.tag(),
            queued(queues(*old(buffer)), event.tag()).push(event),
        ),
        !queued_it ==> queues(*final(buffer)) == queues(*old(buffer)),
{
    let id = event.vec_type_id();
    match buffer.get_mut_raw(id) {
        Some(queue) => {
            queue.push(event);
            proof {
                lemma_queue_set(*old(buffer), *buffer, id, *queue);
            }
            true
        },
        None => false,
    }
}

/// Makes sure that `buffer` has a queue for events of type `id`.
fn ensure_queue<E: RawEvent>(buffer: &mut AnyMap<Queue<E>>, id: TypeTag)
    requires
        buffer_wf(*old(buffer)),
    ensures
        buffer_wf(*final(buffer)),
        queues(*final(buffer)) == queues(*old(buffer)).insert(id, queued(queues(*old(buffer)), id)),
{
    let queue = Queue::new(id);
    buffer.insert_raw_if_missing(queue);
    proof {
        if old(buffer).contains(id) {
            assert(queues(*buffer) =~= queues(*old(buffer)).insert(
                id,
                queued(queues(*old(buffer)), id),
            ));
        } else {
            lemma_queue_set(*old(buffer), *buffer, id, queue);
        }
    }
}

/// The queues of a buffer after each of them has been emptied.
pub open spec fn emptied<E>(buffer: Map<TypeTag, Seq<E>>) -> Map<TypeTag, Seq<E>> {
    Map::new(|tag: TypeTag| buffer.dom().contains(tag), |tag: TypeTag| Seq::empty())
}

/// Empties every queue of `buffer` and keeps the queues themselves.
fn clear_queues<E: RawEvent>(buffer: &mut AnyMap<Queue<E>>)
    requires
        buffer_wf(*old(buffer)),
    ensures
        buffer_wf(*final(buffer)),
        queues(*final(buffer)) == emptied(queues(*old(buffer))),
{
    let mut slots = buffer.iter_mut();
    let ghost all = slots@;
    while slots.len() > 0
        invariant
            slots@.len() <= all.len(),
            slots@ == all.subrange(0, slots@.len() as int),
            forall|j: int|
                slots@.len() <= j < all.len() ==> {
                    &&& (#[trigger] final(all[j])).events() == Seq::<E>::empty()
                    &&& final(all[j]).tag() == all[j].tag()
                },
        decreases slots@.len(),
    {
        let ghost n = slots@.len() - 1;
        let queue = slots.pop().unwrap();
        assert(queue == all[n]);
        queue.clear();
    }
    proof {
        assert forall|i: int| 0 <= i < buffer.items().len() implies {
            &&& (#[trigger] buffer.items()[i]).tag() == old(buffer).tags()[i]
            &&& buffer.items()[i].events() == Seq::<E>::empty()
        } by {
            assert(buffer.items()[i] == *final(all[i]));
            assert(*all[i] == old(buffer).items()[i]);
        }
        assert forall|t: TypeTag| buffer.contains(t) implies #[trigger] buffer.at(t).events()
            == Seq::<E>::empty() by {
            let p = buffer.position(t);
            assert(buffer.items()[p].events() == Seq::<E>::empty());
        }
        assert(queues(*buffer) =~= emptied(queues(*old(buffer))));
    }
}

/// Borrows the events queued under `id`; none where there is no such queue.
fn queued_events<E: RawEvent>(buffer: &AnyMap<Queue<E>>, id: TypeTag) -> (r: &[E])
    requires
        buffer_wf(*buffer),
    ensures
        r@ == queued(queues(*buffer), id),
        forall|i: int| 0 <= i < r@.len() ==> (#[trigger] r@[i]).tag() == id,
{
    match buffer.get_raw(id) {
        Some(queue) => {
            proof {
                let p = buffer.position(id);
                buffer.lemma_position(p);
                assert(buffer.items()[p].wf());
            }
            queue.as_slice()
        },
        None => {
            let empty: &[E] = &[];
            assert(empty@ =~= Seq::<E>::empty());
            empty
        },
    }
}

/// Borrows the events of type `T` queued in `buffer`, oldest first.
fn typed_events<'e, E: RawEvent, T: IntoBoxed<E>>(buffer: &'e AnyMap<Queue<E>>) -> (r: Vec<&'e T>)
    requires
        buffer_wf(*buffer),
    ensures
        r@.len() == queued(queues(*buffer), T::member_tag()).len(),
        forall|i: int|
            0 <= i < r@.len() ==> *r@[i] == T::unboxed(queued(queues(*buffer), T::member_tag())[i]),
{
    let raw = queued_events(buffer, T::tag_of_type());
    let mut out: Vec<&T> = Vec::new();
    let mut i: usize = 0;
    while i < raw.len()
        invariant
            i <= raw@.len(),
            out@.len() == i,
            forall|j: int| 0 <= j < raw@.len() ==> (#[trigger] raw@[j]).tag() == T::member_tag(),
            forall|j: int| 0 <= j < i ==> *out@[j] == T::unboxed(raw@[j]),
        decreases raw@.len() - i,
    {
        match T::downcast(&raw[i]) {
            Some(event) => {
                out.push(event);
            },
            None => {
                assert(raw@[i as int].tag() == T::member_tag());
            },
        }
        i += 1;
    }
    out
}

/// The bus: the queues to read from and the queues to dispatch to.
pub struct EventManager<E: RawEvent> {
    read_buffer: AnyMap<Queue<E>>,
    write_buffer: AnyMap<Queue<E>>,
}

/// The reading half of a bus.
pub struct EventReader<'e, E: RawEvent> {
    /// The queues that reads come from.
    pub buffer: &'e AnyMap<Queue<E>>,
}

/// The writing half of a bus.
pub struct EventWriter<'e, E: RawEvent> {
    /// The queues that dispatches go to.
    pub buffer: &'e mut AnyMap<Queue<E>>,
}

impl<'e, E: RawEvent> EventReader<'e, E> {
    /// Borrows the events of type `T` that are readable this frame, oldest
    /// first. Reading consumes nothing.
    pub fn read<T: IntoBoxed<E>>(&self) -> (r: Vec<&'e T>)
        requires
            buffer_wf(*self.buffer),
        ensures
            values_of(r@) == (Bus { read: queues(*self.buffer), write: Map::empty() }).typed::<T>(),
    {
        let r = typed_events(self.buffer);
        proof {
            let bus = Bus { read: queues(*self.buffer), write: Map::empty() };
            assert(values_of(r@) =~= bus.typed::<T>());
        }
        r
    }
}

impl<'e, E: RawEvent> EventWriter<'e, E> {
    /// Appends an event to the write queue of its type, creating the queue
    /// if it is missing.
    pub fn dispatch<T: IntoBoxed<E>>(&mut self, event: T)
        requires
            buffer_wf(*old(self).buffer),
        ensures
            buffer_wf(*final(self).buffer),
            queues(*final(self).buffer) == queues(*old(self).buffer).insert(
                T::member_tag(),
                queued(queues(*old(self).buffer), T::member_tag()).push(event.boxed()),
            ),
            *final(final(self).buffer) == *final(old(self).buffer),
            event.boxed().tag() == T::member_tag(),
            T::unboxed(event.boxed()) == event,
    {
        push_event(self.buffer, event.into());
    }

    /// Appends an erased event to the write queue of its type. Without such
    /// a queue the event is dropped. Returns whether the event was queued.
    pub fn dispatch_raw(&mut self, event: E) -> (queued_it: bool)
        requires
            buffer_wf(*old(self).buffer),
        ensures
            buffer_wf(*final(self).buffer),
            queued_it == queues(*old(self).buffer).dom().contains(event.tag()),
            queued_it ==> queues(*final(self).buffer) == queues(*old(self).buffer).insert(
                event.tag(),
                queued(queues(*old(self).buffer), event.tag()).push(event),
            ),
            !queued_it ==> queues(*final(self).buffer) == queues(*old(self).buffer),
            *final(final(self).buffer) == *final(old(self).buffer),
    {
        push_event_raw(self.buffer, event)
    }
}

impl<E: RawEvent> EventManager<E> {
    /// What can be read this frame and what waits for the next one.
    pub closed spec fn view(&self) -> Bus<E> {
        Bus { read: queues(self.read_buffer), write: queues(self.write_buffer) }
    }

    /// Both buffers are well formed.
    pub closed spec fn wf(&self) -> bool {
        buffer_wf(self.read_buffer) && buffer_wf(self.write_buffer)
    }

    /// Creates a bus without any queue.
    pub fn new() -> (bus: Self)
        ensures
            bus.wf(),
            bus@ == Bus::<E>::empty(),
    {
        let bus = EventManager { read_buffer: AnyMap::new(), write_buffer: AnyMap::new() };
        proof {
            assert(queues(bus.read_buffer) =~= Map::<TypeTag, Seq<E>>::empty());
            assert(queues(bus.write_buffer) =~= Map::<TypeTag, Seq<E>>::empty());
        }
        bus
    }

    /// Appends an event to the write queue of its type, creating the queue
    /// if it is missing.
    pub fn dispatch<T: IntoBoxed<E>>(&mut self, event: T)
        requires
            old(self).wf(),
        ensures
            final(self).wf(),
            final(self)@ == old(self)@.dispatch(event.boxed()),
            event.boxed().tag() == T::member_tag(),
            T::unboxed(event.boxed()) == event,
    {
        push_event(&mut self.write_buffer, event.into());
    }

    /// Borrows the events of type `T` that are readable this frame, oldest
    /// first. Reading consumes nothing.
    pub fn read<T: IntoBoxed<E>>(&self) -> (r: Vec<&T>)
        requires
            self.wf(),
        ensures
            values_of(r@) == self@.typed::<T>(),
    {
        let r = typed_events(&self.read_buffer);
        proof {
            assert(values_of(r@) =~= self@.typed::<T>());
        }
        r
    }

    /// Borrows the erased events that are readable this frame under `id`,
    /// oldest first. Reading consumes nothing.
    pub fn read_raw(&self, id: TypeTag) -> (r: &[E])
        requires
            self.wf(),
        ensures
            r@ == self@.read(id),
    {
        queued_events(&self.read_buffer, id)
    }

    /// Splits the bus into its reading and its writing half, so that events
    /// can be dispatched while others are being read.
    pub fn split(&mut self) -> (halves: (EventReader<'_, E>, EventWriter<'_, E>))
        requires
            old(self).wf(),
        ensures
            buffer_wf(*halves.0.buffer),
            buffer_wf(*halves.1.buffer),
            queues(*halves.0.buffer) == old(self)@.read,
            queues(*halves.1.buffer) == old(self)@.write,
            final(self)@ == (Bus { read: old(self)@.read, write: queues(*final(halves.1.buffer)) }),
            buffer_wf(*final(halves.1.buffer)) ==> final(self).wf(),
    {
        let reader = EventReader { buffer: &self.read_buffer };
        let writer = EventWriter { buffer: &mut self.write_buffer };
        (reader, writer)
    }

    /// Makes sure that both buffers have a queue for events of type `T`.
    pub fn ensure_event<T: IntoBoxed<E>>(&mut self)
        requires
            old(self).wf(),
        ensures
            final(self).wf(),
            final(self)@ == old(self)@.ensure(T::member_tag()),
    {
        let id = T::tag_of_type();
        ensure_queue(&mut self.write_buffer, id);
        ensure_queue(&mut self.read_buffer, id);
    }

    /// Appends an erased event to the write queue of its type. Without such
    /// a queue the event is dropped. Returns whether the event was queued.
    pub fn dispatch_raw(&mut self, event: E) -> (queued_it: bool)
        requires
            old(self).wf(),
        ensures
            final(self).wf(),
            final(self)@ == old(self)@.dispatch_raw(event),
            queued_it == old(self)@.write.dom().contains(event.tag()),
    {
        push_event_raw(&mut self.write_buffer, event)
    }

    /// Empties every queue of the read buffer, then exchanges the buffers:
    /// what was dispatched becomes readable, and what was readable is gone.
    pub fn swap_buffers(&mut self)
        requires
            old(self).wf(),
        ensures
            final(self).wf(),
            final(self)@ == old(self)@.swap(),
    {
        clear_queues(&mut self.read_buffer);
        std::mem::swap(&mut self.read_buffer, &mut self.write_buffer);
    }
}

/// The values behind the borrows `borrowed`.
pub open spec fn values_of<T>(borrowed: Seq<&T>) -> Seq<T> {
    Seq::new(borrowed.len(), |i: int| *borrowed[i])
}

/// The events of `events` that belong to the queue `tag`, in their order.
pub open spec fn of_type<E: RawEvent>(events: Seq<E>, tag: TypeTag) -> Seq<E> {
    events.filter(|event: E| event.tag() == tag)
}

/// Dispatching changes nothing that can be read in the same frame: reads
/// that are not separated by a swap return the same events.
pub proof fn lemma_dispatch_keeps_reads<E: RawEvent>(bus: Bus<E>, events: Seq<E>)
    ensures
        bus.dispatch_all(events).read == bus.read,
    decreases events.len(),
{
    if events.len() > 0 {
        lemma_dispatch_keeps_reads(bus, events.drop_last());
    }
}

/// Dispatched events wait in the queue of their type, behind what was
/// waiting there, in the order of their dispatch.
pub proof fn lemma_dispatch_queues_in_order<E: RawEvent>(bus: Bus<E>, events: Seq<E>, tag: TypeTag)
    ensures
        bus.dispatch_all(events).pending(tag) == bus.pending(tag) + of_type(events, tag),
    decreases events.len(),
{
    reveal(Seq::filter);
    if events.len() == 0 {
        assert(of_type(events, tag) =~= Seq::<E>::empty());
        assert(bus.pending(tag) + of_type(events, tag) =~= bus.pending(tag));
    } else {
        let init = events.drop_last();
        let last = events.last();
        lemma_dispatch_queues_in_order(bus, init, tag);
        let before = bus.dispatch_all(init);
        if last.tag() == tag {
            assert(of_type(events, tag) == of_type(init, tag).push(last));
            assert(before.dispatch(last).pending(tag) =~= bus.pending(tag) + of_type(events, tag));
        } else {
            assert(of_type(events, tag) == of_type(init, tag));
        }
    }
}

/// After one swap a read returns what was waiting, and after a second swap
/// without a dispatch in between it returns nothing: no event outlives its
/// frame.
pub proof fn lemma_swap_shows_then_forgets<E: RawEvent>(bus: Bus<E>, tag: TypeTag)
    ensures
        bus.swap().read(tag) == bus.pending(tag),
        bus.swap().swap().read(tag) == Seq::<E>::empty(),
{
}

/// Whether both buffers of the bus have a queue for events of type `tag`.
pub open spec fn ensured<E: RawEvent>(bus: Bus<E>, tag: TypeTag) -> bool {
    bus.read.dom().contains(tag) && bus.write.dom().contains(tag)
}

/// Once the queues of a type have been made sure of, they stay through every
/// dispatch and every swap, and a raw dispatch of an event of that type does
/// what a typed dispatch does.
pub proof fn lemma_ensured_queues_stay<E: RawEvent>(bus: Bus<E>, tag: TypeTag, event: E)
    ensures
        ensured(bus.ensure(tag), tag),
        bus.ensure(tag).read(tag) == bus.read(tag),
        bus.ensure(tag).pending(tag) == bus.pending(tag),
        ensured(bus, tag) ==> ensured(bus.swap(), tag) && ensured(bus.dispatch(event), tag)
            && ensured(bus.dispatch_raw(event), tag),
        ensured(bus, event.tag()) ==> bus.dispatch_raw(event) == bus.dispatch(event),
        !bus.write.dom().contains(event.tag()) ==> bus.dispatch_raw(event) == bus,
{
}

/// On a fresh bus nothing can be read before the first swap; after one swap
/// a read returns exactly the dispatched events of that type in the order of
/// their dispatch; after a second swap it returns nothing.
pub proof fn lemma_events_live_one_frame<E: RawEvent>(events: Seq<E>, tag: TypeTag)
    ensures
        Bus::<E>::empty().dispatch_all(events).read(tag) == Seq::<E>::empty(),
        Bus::<E>::empty().dispatch_all(events).swap().read(tag) == of_type(events, tag),
        Bus::<E>::empty().dispatch_all(events).swap().swap().read(tag) == Seq::<E>::empty(),
{
    let fresh = Bus::<E>::empty();
    lemma_dispatch_keeps_reads(fresh, events);
    lemma_dispatch_queues_in_order(fresh, events, tag);
    lemma_swap_shows_then_forgets(fresh.dispatch_all(events), tag);
    assert(fresh.pending(tag) + of_type(events, tag) =~= of_type(events, tag));
}

/// A store that differs from another at one tag only holds the same queues
/// but for that tag.
proof fn lemma_queue_set<E: RawEvent>(
    before: AnyMap<Queue<E>>,
    after: AnyMap<Queue<E>>,
    id: TypeTag,
    queue: Queue<E>,
)
    requires
        buffer_wf(before),
        after.wf(),
        queue.wf(),
        after@ == before@.insert(id, queue),
    ensures
        buffer_wf(after),
        queues(after) == queues(before).insert(id, queue.events()),
{
    assert(after@.dom().contains(id));
    assert(after@[id] == queue);
    assert forall|i: int| 0 <= i < after.items().len() implies (#[trigger] after.items()[i]).wf() by {
        after.lemma_position(i);
        let t = after.tags()[i];
        assert(after@.dom().contains(t));
        assert(after@[t] == after.items()[i]);
        if t != id {
            assert(before@.dom().contains(t));
            assert(before@[t] == after.items()[i]);
            let p = before.position(t);
            assert(before.items()[p].wf());
        }
    }
    assert forall|t: TypeTag| queues(after).dom().contains(t) <==> queues(before).insert(
        id,
        queue.events(),
    ).dom().contains(t) by {
        assert(after@.dom().contains(t) <==> after.contains(t));
        assert(before@.dom().contains(t) <==> before.contains(t));
    }
    assert forall|t: TypeTag| queues(after).dom().contains(t) implies #[trigger] queues(after)[t]
        == queues(before).insert(id, queue.events())[t] by {
        assert(after@.dom().contains(t));
        if t != id {
            assert(before@.dom().contains(t));
            assert(after@[t] == before@[t]);
        }
    }
    assert(queues(after) =~= queues(before).insert(id, queue.events()));
}

} // verus!
