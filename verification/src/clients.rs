//! What holds of the clients' buffers over any number of operations.
use async_channel::Sender;
use vstd::prelude::*;

use crate::controller::ControllerView;
use crate::controller::DeliveryView;
use crate::controller::reaches_all;
use crate::payload::Data;
use crate::payload::DataView;

verus! {

/// One operation on the buffers.
pub enum ControllerStep {
    /// A buffer was added, with this sending end.
    Added(Sender<Data>),
    /// The buffer with this number was dropped.
    Dropped(usize),
    /// Data was sent to all clients, by these deliveries.
    Sent { data: DataView, deliveries: Seq<DeliveryView> },
}

/// The buffers after `steps`.
pub open spec fn after(state: ControllerView, steps: Seq<ControllerStep>) -> ControllerView
    decreases steps.len(),
{
    if steps.len() == 0 {
        state
    } else {
        let before = after(state, steps.drop_last());
        match steps.last() {
            ControllerStep::Added(tx) => before.with_buffer(tx),
            ControllerStep::Dropped(id) => before.without_buffer(id),
            ControllerStep::Sent { .. } => before,
        }
    }
}

/// Each sending among `steps` reaches all clients of its moment.
pub open spec fn possible(state: ControllerView, steps: Seq<ControllerStep>) -> bool
    decreases steps.len(),
{
    steps.len() > 0 ==> {
        &&& possible(state, steps.drop_last())
        &&& match steps.last() {
            ControllerStep::Sent { data, deliveries } => reaches_all(
                after(state, steps.drop_last()),
                data,
                deliveries,
            ),
            _ => true,
        }
    }
}

/// How many buffers `steps` add.
pub open spec fn added(steps: Seq<ControllerStep>) -> nat
    decreases steps.len(),
{
    if steps.len() == 0 {
        0
    } else {
        added(steps.drop_last()) + if steps.last() is Added {
            1nat
        } else {
            0
        }
    }
}

/// The data that `steps` send to all clients, in order.
pub open spec fn broadcasts(steps: Seq<ControllerStep>) -> Seq<DataView>
    decreases steps.len(),
{
    if steps.len() == 0 {
        Seq::empty()
    } else {
        match steps.last() {
            ControllerStep::Sent { data, .. } => broadcasts(steps.drop_last()).push(data),
            _ => broadcasts(steps.drop_last()),
        }
    }
}

/// Those of the deliveries that go to the buffer with number `id`.
pub open spec fn addressed(deliveries: Seq<DeliveryView>, id: usize) -> Seq<DeliveryView>
    decreases deliveries.len(),
{
    if deliveries.len() == 0 {
        Seq::empty()
    } else if deliveries.last().id == id {
        addressed(deliveries.drop_last(), id).push(deliveries.last())
    } else {
        addressed(deliveries.drop_last(), id)
    }
}

/// All that `steps` deliver to the buffer with number `id`, in order.
pub open spec fn delivered(steps: Seq<ControllerStep>, id: usize) -> Seq<DeliveryView>
    decreases steps.len(),
{
    if steps.len() == 0 {
        Seq::empty()
    } else {
        delivered(steps.drop_last(), id) + match steps.last() {
            ControllerStep::Sent { deliveries, .. } => addressed(deliveries, id),
            _ => Seq::empty(),
        }
    }
}

/// None of `steps` gives out the number `id`.
pub open spec fn not_given_out(
    state: ControllerView,
    steps: Seq<ControllerStep>,
    id: usize,
) -> bool
    decreases steps.len(),
{
    steps.len() > 0 ==> {
        &&& not_given_out(state, steps.drop_last(), id)
        &&& steps.last() is Added ==> after(state, steps.drop_last()).next_id != id
    }
}

proof fn lemma_not_addressed(deliveries: Seq<DeliveryView>, id: usize)
    requires
        forall|k: int| 0 <= k < deliveries.len() ==> (#[trigger] deliveries[k]).id != id,
    ensures
        addressed(deliveries, id) == Seq::<DeliveryView>::empty(),
    decreases deliveries.len(),
{
    if deliveries.len() > 0 {
        let before = deliveries.drop_last();
        assert forall|k: int| 0 <= k < before.len() implies (#[trigger] before[k]).id != id by {
            assert(before[k] == deliveries[k]);
        }
        lemma_not_addressed(before, id);
    }
}

proof fn lemma_addressed_once(deliveries: Seq<DeliveryView>, id: usize, k: int)
    requires
        0 <= k < deliveries.len(),
        deliveries[k].id == id,
        forall|j: int|
            0 <= j < deliveries.len() && j != k ==> (#[trigger] deliveries[j]).id != id,
    ensures
        addressed(deliveries, id) == seq![deliveries[k]],
    decreases deliveries.len(),
{
    let before = deliveries.drop_last();
    if k == deliveries.len() - 1 {
        assert forall|j: int| 0 <= j < before.len() implies (#[trigger] before[j]).id != id by {
            assert(before[j] == deliveries[j]);
        }
        lemma_not_addressed(before, id);
        assert(addressed(deliveries, id) =~= seq![deliveries[k]]);
    } else {
        assert forall|j: int| 0 <= j < before.len() && j != k implies (
        #[trigger] before[j]).id != id by {
            assert(before[j] == deliveries[j]);
        }
        assert(deliveries[deliveries.len() - 1].id != id);
        lemma_addressed_once(before, id, k);
    }
}

/// Sending to all clients delivers once to each of them, through its own buffer, and not at all to
/// anyone else.
pub proof fn law_one_delivery_each(
    state: ControllerView,
    data: DataView,
    deliveries: Seq<DeliveryView>,
    id: usize,
)
    requires
        reaches_all(state, data, deliveries),
    ensures
        addressed(deliveries, id) == if state.buffers.contains_key(id) {
            seq![DeliveryView { id, tx: state.buffers[id], data }]
        } else {
            seq![]
        },
{
    if state.buffers.contains_key(id) {
        let k = choose|k: int| 0 <= k < deliveries.len() && (#[trigger] deliveries[k]).id == id;
        assert forall|j: int| 0 <= j < deliveries.len() && j != k implies (
        #[trigger] deliveries[j]).id != id by {
            if j < k {
                assert(deliveries[j].id != deliveries[k].id);
            } else {
                assert(deliveries[k].id != deliveries[j].id);
            }
        }
        lemma_addressed_once(deliveries, id, k);
        assert(deliveries[k] == (DeliveryView { id, tx: state.buffers[id], data }));
    } else {
        lemma_not_addressed(deliveries, id);
    }
}

proof fn lemma_numbers(state: ControllerView, steps: Seq<ControllerStep>)
    requires
        state.numbered(),
        state.next_id + added(steps) <= usize::MAX,
    ensures
        after(state, steps).numbered(),
        after(state, steps).next_id == state.next_id + added(steps),
    decreases steps.len(),
{
    if steps.len() > 0 {
        lemma_numbers(state, steps.drop_last());
        let before = after(state, steps.drop_last());
        match steps.last() {
            ControllerStep::Added(tx) => {
                crate::controller::law_adding_keeps_numbering(before, tx);
            },
            ControllerStep::Dropped(id) => {
                crate::controller::law_dropping_keeps_numbering(before, id);
            },
            ControllerStep::Sent { .. } => {},
        }
    }
}

proof fn lemma_nothing_before_number(
    state: ControllerView,
    steps: Seq<ControllerStep>,
    id: usize,
)
    requires
        state.numbered(),
        possible(state, steps),
        state.next_id + added(steps) <= id,
    ensures
        delivered(steps, id) == Seq::<DeliveryView>::empty(),
    decreases steps.len(),
{
    if steps.len() > 0 {
        let before = steps.drop_last();
        lemma_nothing_before_number(state, before, id);
        lemma_numbers(state, before);
        if let ControllerStep::Sent { data, deliveries } = steps.last() {
            let moment = after(state, before);
            assert(!moment.buffers.contains_key(id));
            law_one_delivery_each(moment, data, deliveries, id);
        }
        assert(delivered(steps, id) =~= Seq::<DeliveryView>::empty());
    }
}

/// A client gets what is sent while it is connected: once its buffer has been added, and as long
/// as that is not dropped, exactly the data sent from then on is delivered to it, in order and
/// through its own buffer. Nothing is lost or repeated, and nothing comes from before.
pub proof fn law_client_gets_later_data(
    state: ControllerView,
    before: Seq<ControllerStep>,
    tx: Sender<Data>,
    later: Seq<ControllerStep>,
)
    requires
        state.numbered(),
        state.next_id + added(before) + 1 + added(later) <= usize::MAX,
        possible(state, before.push(ControllerStep::Added(tx)) + later),
        !later.contains(ControllerStep::Dropped(after(state, before).next_id)),
    ensures
        ({
            let id = after(state, before).next_id;
            let steps = before.push(ControllerStep::Added(tx)) + later;
            &&& delivered(steps, id) == broadcasts(later).map_values(
                |data: DataView| DeliveryView { id, tx, data },
            )
            &&& after(state, steps).buffers.contains_key(id)
            &&& after(state, steps).buffers[id] == tx
        }),
    decreases later.len(),
{
    let id = after(state, before).next_id;
    let own = |data: DataView| DeliveryView { id, tx, data };
    let joined = before.push(ControllerStep::Added(tx));
    let steps = joined + later;
    lemma_numbers(state, before);
    if later.len() == 0 {
        assert(steps =~= joined);
        assert(joined.drop_last() =~= before);
        lemma_nothing_before_number(state, before, id);
        assert(delivered(steps, id) =~= broadcasts(later).map_values(own));
    } else {
        let earlier = later.drop_last();
        assert(steps.drop_last() =~= joined + earlier);
        assert(steps.last() == later.last());
        assert(later[later.len() - 1] == later.last());
        assert forall|step: ControllerStep| earlier.contains(step) implies later.contains(step) by {
            let k = earlier.index_of(step);
            assert(later[k] == step);
        }
        law_client_gets_later_data(state, before, tx, earlier);
        let moment = after(state, joined + earlier);
        match later.last() {
            ControllerStep::Added(_) => {
                lemma_added_joins(joined, earlier);
                assert(joined.drop_last() =~= before);
                lemma_numbers(state, joined + earlier);
                assert(moment.next_id > id);
            },
            ControllerStep::Dropped(other) => {
                assert(later.contains(later.last()));
                assert(other != id);
            },
            ControllerStep::Sent { data, deliveries } => {
                law_one_delivery_each(moment, data, deliveries, id);
                assert(broadcasts(earlier).push(data).map_values(own) =~= broadcasts(
                    earlier,
                ).map_values(own).push(own(data)));
            },
        }
        assert(delivered(steps, id) =~= broadcasts(later).map_values(own));
    }
}

proof fn lemma_added_joins(first: Seq<ControllerStep>, second: Seq<ControllerStep>)
    ensures
        added(first + second) == added(first) + added(second),
    decreases second.len(),
{
    if second.len() == 0 {
        assert(first + second =~= first);
    } else {
        lemma_added_joins(first, second.drop_last());
        assert((first + second).drop_last() =~= first + second.drop_last());
    }
}

proof fn lemma_dropped_stays_away(
    state: ControllerView,
    id: usize,
    tx: Sender<Data>,
    later: Seq<ControllerStep>,
)
    requires
        not_given_out(state.without_buffer(id), later, id),
        forall|other: usize|
            other != id && #[trigger] state.buffers.contains_key(other) ==> state.buffers[other]
                != tx,
        !later.contains(ControllerStep::Added(tx)),
    ensures
        ({
            let end = after(state.without_buffer(id), later);
            &&& !end.buffers.contains_key(id)
            &&& forall|other: usize| #[trigger]
                end.buffers.contains_key(other) ==> end.buffers[other] != tx
        }),
    decreases later.len(),
{
    let freed = state.without_buffer(id);
    if later.len() == 0 {
        assert forall|other: usize| #[trigger] freed.buffers.contains_key(
            other,
        ) implies freed.buffers[other] != tx by {
            assert(state.buffers.contains_key(other));
        }
    } else {
        let earlier = later.drop_last();
        assert(later[later.len() - 1] == later.last());
        assert forall|step: ControllerStep| earlier.contains(step) implies later.contains(step) by {
            let k = earlier.index_of(step);
            assert(later[k] == step);
        }
        lemma_dropped_stays_away(state, id, tx, earlier);
        let moment = after(freed, earlier);
        let end = after(freed, later);
        assert(later.contains(later.last()));
        assert forall|other: usize| #[trigger] end.buffers.contains_key(
            other,
        ) implies end.buffers[other] != tx by {
            match later.last() {
                ControllerStep::Added(new) => {
                    assert(new != tx);
                    if other != moment.next_id {
                        assert(moment.buffers.contains_key(other));
                    }
                },
                _ => {
                    assert(moment.buffers.contains_key(other));
                },
            }
        }
    }
}

/// A client whose buffer has been dropped is left alone: until its number is given out again,
/// nothing is delivered under that number, and no delivery goes through its sending end `tx`, which
/// no other client has.
pub proof fn law_dropped_client_gets_nothing(
    state: ControllerView,
    id: usize,
    tx: Sender<Data>,
    later: Seq<ControllerStep>,
)
    requires
        possible(state.without_buffer(id), later),
        not_given_out(state.without_buffer(id), later, id),
        forall|other: usize|
            other != id && #[trigger] state.buffers.contains_key(other) ==> state.buffers[other]
                != tx,
        !later.contains(ControllerStep::Added(tx)),
    ensures
        delivered(later, id) == Seq::<DeliveryView>::empty(),
        forall|k: int, m: int|
            #![trigger later[k], later[k]->deliveries[m]]
            0 <= k < later.len() && later[k] is Sent && 0 <= m < later[k]->deliveries.len()
                ==> later[k]->deliveries[m].tx != tx,
    decreases later.len(),
{
    if later.len() > 0 {
        let freed = state.without_buffer(id);
        let earlier = later.drop_last();
        assert forall|step: ControllerStep| earlier.contains(step) implies later.contains(step) by {
            let k = earlier.index_of(step);
            assert(later[k] == step);
        }
        law_dropped_client_gets_nothing(state, id, tx, earlier);
        lemma_dropped_stays_away(state, id, tx, earlier);
        let moment = after(freed, earlier);
        if let ControllerStep::Sent { data, deliveries } = later.last() {
            law_one_delivery_each(moment, data, deliveries, id);
        }
        assert(delivered(later, id) =~= Seq::<DeliveryView>::empty());
        assert forall|k: int, m: int|
            #![trigger later[k], later[k]->deliveries[m]]
            0 <= k < later.len() && later[k] is Sent && 0 <= m
                < later[k]->deliveries.len() implies later[k]->deliveries[m].tx != tx by {
            if k < earlier.len() {
                assert(later[k] == earlier[k]);
                assert(earlier[k]->deliveries[m].tx != tx);
            } else {
                let delivery = later[k]->deliveries[m];
                assert(moment.buffers.contains_key(delivery.id));
            }
        }
    }
}

} // verus!
