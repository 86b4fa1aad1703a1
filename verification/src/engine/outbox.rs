//! The way of an order out of the scheduler: a channel, and a record of all that was offered
//! to it.

use super::{Dispatch, DispatchView};
use vstd::prelude::*;

verus! {

/// An order that was offered to a channel, and whether the channel took it.
#[verifier::ext_equal]
pub struct Offer {
    pub order: DispatchView,
    pub accepted: bool,
}

/// The orders that were taken, in the order in which they were offered.
pub open spec fn taken(offers: Seq<Offer>) -> Seq<DispatchView>
    decreases offers.len(),
{
    if offers.len() == 0 {
        Seq::empty()
    } else {
        let before = taken(offers.drop_last());
        if offers.last().accepted {
            before.push(offers.last().order)
        } else {
            before
        }
    }
}

/// One more offer adds its order to those that were taken, or nothing.
pub proof fn lemma_taken_push(offers: Seq<Offer>, offer: Offer)
    ensures
        taken(offers.push(offer)) == (if offer.accepted {
            taken(offers).push(offer.order)
        } else {
            taken(offers)
        }),
{
    assert(offers.push(offer).drop_last() =~= offers);
}

/// The sending end of a channel of the `flume` crate.
#[verifier::external_type_specification]
#[verifier::external_body]
#[verifier::reject_recursive_types(T)]
pub struct ExSender<T>(flume::Sender<T>);

/// The sending end of the channel that leads to the robots.
pub struct Outbox {
    sender: flume::Sender<Dispatch>,
    log: Ghost<Seq<Offer>>,
}

impl Outbox {
    /// All that was offered to the channel through this outbox, with the channel's answers.
    pub closed spec fn offers(self) -> Seq<Offer> {
        self.log@
    }

    /// An outbox through which nothing has been offered yet.
    pub fn new(sender: flume::Sender<Dispatch>) -> (r: Self)
        ensures
            r.offers() == Seq::<Offer>::empty(),
    {
        Outbox { sender, log: Ghost(Seq::empty()) }
    }
}

/// `flume::Sender::try_send`: offers an order to the channel without waiting, and says whether
/// the channel took it. The order and the answer are the next entry of the record of offers.
/// The answer depends on the receiver, so nothing is claimed of it.
#[verifier::external_body]
pub(crate) fn offer(outbox: &mut Outbox, order: Dispatch) -> (accepted: bool)
    ensures
        final(outbox).offers() == old(outbox).offers().push(
            (Offer { order: order@, accepted }),
        ),
{
    outbox.sender.try_send(order).is_ok()
}

} // verus!
