//! The clients that are connected, and how data reaches all of them.
use std::collections::HashMap;

use async_channel::Receiver;
use async_channel::Sender;
use vstd::prelude::*;
use vstd::std_specs::iter::IteratorSpec;

use crate::payload::Data;
use crate::payload::DataView;

verus! {

broadcast use vstd::std_specs::hash::group_hash_axioms;

/// The sending end of a channel of the `async-channel` crate.
#[verifier::external_type_specification]
#[verifier::external_body]
#[verifier::reject_recursive_types(T)]
pub struct ExSender<T>(Sender<T>);

/// The receiving end of a channel of the `async-channel` crate.
#[verifier::external_type_specification]
#[verifier::external_body]
#[verifier::reject_recursive_types(T)]
pub struct ExReceiver<T>(Receiver<T>);

/// How many items the channel holds at most whose two ends these are; nothing if the ends
/// belong to different channels or to one without a limit.
pub uninterp spec fn shared_capacity(tx: Sender<Data>, rx: Receiver<Data>) -> Option<usize>;

/// `async_channel::bounded`: the two ends of one new channel that holds at most `capacity`
/// items. The call panics on a capacity of zero, and on one too large to be allocated.
#[verifier::external_body]
fn bounded(capacity: usize) -> (ends: (Sender<Data>, Receiver<Data>))
    requires
        0 < capacity <= 0xffff,
    ensures
        shared_capacity(ends.0, ends.1) == Some(capacity),
{
    async_channel::bounded(capacity)
}

/// How many pieces of data wait for one client at most.
pub const BUFFER_CAPACITY: usize = 100;

/// The buffers of the clients that are connected.
pub struct ControllerState {
    next_id: usize,
    buffers: HashMap<usize, Sender<Data>>,
}

/// A [`ControllerState`] as a value.
pub struct ControllerView {
    /// The number that the next buffer gets.
    pub next_id: usize,
    /// The sending end of each buffer, by number.
    pub buffers: Map<usize, Sender<Data>>,
}

impl View for ControllerState {
    type V = ControllerView;

    closed spec fn view(&self) -> ControllerView {
        ControllerView { next_id: self.next_id, buffers: self.buffers@ }
    }
}

impl ControllerView {
    /// The start: no client is connected.
    pub open spec fn start() -> ControllerView {
        ControllerView { next_id: 0, buffers: Map::empty() }
    }

    /// A buffer with the sending end `tx` is added under the next number. Numbers start again
    /// from zero after the largest.
    pub open spec fn with_buffer(self, tx: Sender<Data>) -> ControllerView {
        ControllerView {
            next_id: if self.next_id == usize::MAX {
                0
            } else {
                (self.next_id + 1) as usize
            },
            buffers: self.buffers.insert(self.next_id, tx),
        }
    }

    /// The buffer with number `id` is dropped, if there is one.
    pub open spec fn without_buffer(self, id: usize) -> ControllerView {
        ControllerView { next_id: self.next_id, buffers: self.buffers.remove(id) }
    }

    /// All numbers given out so far are below the next one.
    pub open spec fn numbered(self) -> bool {
        forall|id: usize| #[trigger] self.buffers.contains_key(id) ==> id < self.next_id
    }
}

/// Something to be put into one client's buffer.
pub struct Delivery<'a> {
    pub id: usize,
    pub tx: &'a Sender<Data>,
    pub data: Data,
}

/// A [`Delivery`] as a value.
pub struct DeliveryView {
    pub id: usize,
    pub tx: Sender<Data>,
    pub data: DataView,
}

impl View for Delivery<'_> {
    type V = DeliveryView;

    open spec fn view(&self) -> DeliveryView {
        DeliveryView { id: self.id, tx: *self.tx, data: self.data@ }
    }
}

/// `deliveries` take `data` to every client, once each, through the client's own buffer, and
/// nowhere else.
pub open spec fn reaches_all(
    state: ControllerView,
    data: DataView,
    deliveries: Seq<DeliveryView>,
) -> bool {
    &&& forall|k: int|
        0 <= k < deliveries.len() ==> {
            let delivery = #[trigger] deliveries[k];
            &&& state.buffers.contains_key(delivery.id)
            &&& delivery.tx == state.buffers[delivery.id]
            &&& delivery.data == data
        }
    &&& forall|id: usize| #[trigger]
        state.buffers.contains_key(id) ==> exists|k: int|
            0 <= k < deliveries.len() && (#[trigger] deliveries[k]).id == id
    &&& forall|j: int, k: int|
        0 <= j < k < deliveries.len() ==> (#[trigger] deliveries[j]).id != (
        #[trigger] deliveries[k]).id
}

impl ControllerState {
    /// No client is connected yet.
    pub fn new() -> (state: Self)
        ensures
            state@ == ControllerView::start(),
    {
        ControllerState { next_id: 0, buffers: HashMap::new() }
    }

    /// Adds a buffer for a client; returns its number and its receiving end.
    pub fn alloc_buffer(&mut self) -> (handle: (usize, Receiver<Data>))
        ensures
            handle.0 == old(self)@.next_id,
            final(self)@ == old(self)@.with_buffer(final(self)@.buffers[handle.0]),
            final(self)@.buffers == old(self)@.buffers.insert(
                handle.0,
                final(self)@.buffers[handle.0],
            ),
            shared_capacity(final(self)@.buffers[handle.0], handle.1) == Some(BUFFER_CAPACITY),
    {
        let id = self.next_id;
        self.next_id = id.wrapping_add(1);
        let (tx, rx) = bounded(BUFFER_CAPACITY);
        self.buffers.insert(id, tx);
        (id, rx)
    }

    /// What has to be delivered so that `data` reaches every client.
    pub fn send_to_all(&self, data: Data) -> (deliveries: Vec<Delivery<'_>>)
        ensures
            reaches_all(
                self@,
                data@,
                deliveries@.map_values(|delivery: Delivery<'_>| delivery@),
            ),
    {
        let mut deliveries: Vec<Delivery<'_>> = Vec::new();
        let walk = self.buffers.iter();
        let ghost entries = walk.remaining();
        for (id, tx) in steps: walk
            invariant
                steps.seq() == entries,
                deliveries@.len() == steps.index(),
                forall|k: int|
                    0 <= k < deliveries@.len() ==> {
                        let delivery = #[trigger] deliveries@[k];
                        &&& delivery.id == *entries[k].0
                        &&& *delivery.tx == *entries[k].1
                        &&& delivery.data@ == data@
                    },
        {
            deliveries.push(Delivery { id: *id, tx, data: data.clone() });
        }
        proof {
            let views = deliveries@.map_values(|delivery: Delivery<'_>| delivery@);
            assert forall|id: usize| #[trigger] self@.buffers.contains_key(id) implies exists|k: int|
                0 <= k < views.len() && (#[trigger] views[k]).id == id by {
                let k = entries.index_of((&id, &self.buffers@[id]));
                assert(entries.contains((&id, &self.buffers@[id])));
                assert(views[k].id == id);
            }
            assert forall|j: int, k: int| 0 <= j < k < views.len() implies (
            #[trigger] views[j]).id != (#[trigger] views[k]).id by {
                if views[j].id == views[k].id {
                    assert(self.buffers@[*entries[j].0] == *entries[j].1);
                    assert(self.buffers@[*entries[k].0] == *entries[k].1);
                    assert(entries[j] == entries[k]);
                }
            }
        }
        deliveries
    }

    /// Drops the buffer of a client.
    pub fn free_buffer(&mut self, buf_id: usize)
        ensures
            final(self)@ == old(self)@.without_buffer(buf_id),
            final(self)@.buffers == old(self)@.buffers.remove(buf_id),
            final(self)@.next_id == old(self)@.next_id,
    {
        self.buffers.remove(&buf_id);
    }
}

/// A delivery is what it carries, to whom and through which end.
pub proof fn law_delivery_value(delivery: Delivery<'_>)
    ensures
        delivery@.id == delivery.id,
        delivery@.tx == *delivery.tx,
        delivery@.data == delivery.data@,
{
}

/// A buffer that is added is there, with its own sending end, and the next one gets the number
/// behind its own, or zero after the largest; one that is dropped is gone, and its number is not
/// given out again for that. At the start there is none, and the first gets number zero.
pub proof fn law_add_and_drop(state: ControllerView, tx: Sender<Data>, id: usize)
    ensures
        state.with_buffer(tx).buffers.contains_key(state.next_id),
        state.with_buffer(tx).buffers[state.next_id] == tx,
        state.next_id < usize::MAX ==> state.with_buffer(tx).next_id == state.next_id + 1,
        state.next_id == usize::MAX ==> state.with_buffer(tx).next_id == 0,
        !state.without_buffer(id).buffers.contains_key(id),
        state.without_buffer(id).next_id == state.next_id,
        ControllerView::start().next_id == 0,
        ControllerView::start().buffers.dom() == Set::<usize>::empty(),
{
    assert(ControllerView::start().buffers.dom() =~= Set::<usize>::empty());
}

/// Until the numbers run out, the number of a new buffer is not in use.
pub proof fn law_next_number_unused(state: ControllerView)
    requires
        state.numbered(),
    ensures
        !state.buffers.contains_key(state.next_id),
{
}

/// Adding a buffer keeps the numbers in use below the next one, until the numbers run out.
pub proof fn law_adding_keeps_numbering(state: ControllerView, tx: Sender<Data>)
    requires
        state.numbered(),
        state.next_id < usize::MAX,
    ensures
        state.with_buffer(tx).numbered(),
{
}

/// Dropping a buffer keeps the numbers in use below the next one.
pub proof fn law_dropping_keeps_numbering(state: ControllerView, id: usize)
    requires
        state.numbered(),
    ensures
        state.without_buffer(id).numbered(),
{
    assert forall|other: usize| #[trigger]
        state.without_buffer(id).buffers.contains_key(other) implies other < state.next_id by {
        assert(state.buffers.contains_key(other));
    }
}

/// Adding a buffer and dropping it again leaves the buffers as they were.
pub proof fn law_drop_undoes_add(state: ControllerView, tx: Sender<Data>)
    requires
        state.numbered(),
    ensures
        state.with_buffer(tx).without_buffer(state.next_id).buffers == state.buffers,
{
    law_next_number_unused(state);
    assert(state.with_buffer(tx).without_buffer(state.next_id).buffers =~= state.buffers);
}

/// Clients do not disturb one another: adding or dropping one buffer leaves every other buffer
/// as it was.
pub proof fn law_buffers_independent(
    state: ControllerView,
    tx: Sender<Data>,
    id: usize,
    other: usize,
)
    ensures
        other != state.next_id ==> state.with_buffer(tx).buffers.contains_key(other)
            == state.buffers.contains_key(other),
        other != state.next_id && state.buffers.contains_key(other) ==> state.with_buffer(
            tx,
        ).buffers[other] == state.buffers[other],
        other != id ==> state.without_buffer(id).buffers.contains_key(other)
            == state.buffers.contains_key(other),
        other != id && state.buffers.contains_key(other) ==> state.without_buffer(
            id,
        ).buffers[other] == state.buffers[other],
        !state.without_buffer(id).buffers.contains_key(id),
{
}

} // verus!
