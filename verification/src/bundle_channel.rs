//! The channel that takes bundles to their execution.

use crossbeam_channel::Sender;
use vstd::prelude::*;

use crate::bundle_priority_queue::BundleHandle;

verus! {

/// `crossbeam_channel::Sender`, the sending end of a channel.
#[verifier::external_type_specification]
#[verifier::external_body]
#[verifier::reject_recursive_types(T)]
pub struct ExSender<T>(Sender<T>);

/// `Sender::send`: puts the bundle into the channel, or gives it back where the channel is
/// disconnected. Which of the two happens depends on the receiving end and is left unsaid. The
/// call waits where a bounded channel is full.
#[verifier::external_body]
fn send_bundle(sender: &Sender<BundleHandle>, handle: BundleHandle) -> (sent: Result<
    (),
    BundleHandle,
>)
    ensures
        sent matches Err(returned) ==> returned == handle,
{
    sender.send(handle).map_err(|error| error.0)
}

/// The bundle was given to the sending end of the channel, and this came back.
pub closed spec fn sends(
    sender: Sender<BundleHandle>,
    handle: BundleHandle,
    sent: Result<(), BundleHandle>,
) -> bool {
    call_ensures(send_bundle, (&sender, handle), sent)
}

/// The sending end of the channel, with a record of what was sent through it.
pub struct BundleSender {
    sender: Sender<BundleHandle>,
    log: Ghost<Seq<(BundleHandle, Result<(), BundleHandle>)>>,
}

impl BundleSender {
    /// The sending end.
    pub closed spec fn sender(&self) -> Sender<BundleHandle> {
        self.sender
    }

    /// Each bundle that was sent, and what came back.
    pub closed spec fn log(&self) -> Seq<(BundleHandle, Result<(), BundleHandle>)> {
        self.log@
    }

    /// The sending end, through which nothing was sent yet.
    pub fn new(sender: Sender<BundleHandle>) -> (bundles: Self)
        ensures
            bundles.sender() == sender,
            bundles.log() == Seq::<(BundleHandle, Result<(), BundleHandle>)>::empty(),
    {
        BundleSender { sender, log: Ghost(Seq::empty()) }
    }

    /// Sends a bundle, or gives it back where the channel is disconnected.
    pub fn send(&mut self, handle: BundleHandle) -> (sent: Result<(), BundleHandle>)
        ensures
            sends(old(self).sender(), handle, sent),
            sent matches Err(returned) ==> returned == handle,
            final(self).sender() == old(self).sender(),
            final(self).log() == old(self).log().push((handle, sent)),
    {
        let sent = Self::hand_over(&self.sender, handle, send_bundle);
        self.log = Ghost(self.log@.push((handle, sent)));
        sent
    }

    /// Gives a bundle to the sending end of the channel by the given means.
    fn hand_over<F: FnOnce(&Sender<BundleHandle>, BundleHandle) -> Result<(), BundleHandle>>(
        sender: &Sender<BundleHandle>,
        handle: BundleHandle,
        send: F,
    ) -> (sent: Result<(), BundleHandle>)
        requires
            call_requires(send, (sender, handle)),
        ensures
            call_ensures(send, (sender, handle), sent),
    {
        send(sender, handle)
    }
}

} // verus!
