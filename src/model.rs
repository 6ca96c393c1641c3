use vstd::prelude::*;

/// Models of replies to the stream commands.
pub mod stream;
/// Models of the messages of a subscription.
pub mod pubsub;

verus! {

} // verus!
