//! Trusted boundary to the worker channels and the profiling switches.
//!
//! Commands travel to workers over unbounded channels, so sending never
//! blocks; replies are received blockingly.  Whether a send or receive
//! succeeds depends on the peer still being alive, so nothing is promised of
//! the outcomes beyond their shape.

use vstd::prelude::*;
use core::sync::atomic::{AtomicBool, Ordering};
use crate::msg::{Msg, Reply};

verus! {

/// The sending side of a crossbeam_channel channel, held opaquely.
#[verifier::external_type_specification]
#[verifier::external_body]
#[verifier::reject_recursive_types(T)]
pub struct ExSender<T>(crossbeam_channel::Sender<T>);

/// The receiving side of a crossbeam_channel channel, held opaquely.
#[verifier::external_type_specification]
#[verifier::external_body]
#[verifier::reject_recursive_types(T)]
pub struct ExReceiver<T>(crossbeam_channel::Receiver<T>);

/// triomphe's thin atomically counted shared pointer, held opaquely; it
/// carries the profiling switches shared with the workers.
#[verifier::external_type_specification]
#[verifier::external_body]
#[verifier::reject_recursive_types(T)]
pub struct ExThinArc<T: ?Sized>(triomphe::Arc<T>);

/// Relies on crossbeam_channel::Sender::send: on an unbounded channel it
/// returns without blocking, `Ok` unless the receiving side has disconnected.
/// Which outcome occurs depends on the worker, so nothing is stated of it.
#[verifier::external_body]
pub(crate) fn send_msg(s: &crossbeam_channel::Sender<Msg>, m: Msg) -> (r: Result<(), ()>) {
    match s.send(m) {
        Ok(()) => Ok(()),
        Err(_) => Err(()),
    }
}

/// Relies on crossbeam_channel::Receiver::recv: it blocks until a message
/// arrives (`Some`) or returns an error once the channel is empty and
/// disconnected (`None`).  What arrives depends on the worker, so nothing is
/// stated of it.
#[verifier::external_body]
pub(crate) fn recv_reply(r: &crossbeam_channel::Receiver<Reply>) -> (res: Option<Reply>) {
    match r.recv() {
        Ok(reply) => Some(reply),
        Err(_) => None,
    }
}

/// Relies on core::sync::atomic::AtomicBool::store through
/// triomphe::Arc's Deref: stores the flag for the workers to observe.
#[verifier::external_body]
pub(crate) fn store_flag(a: &triomphe::Arc<AtomicBool>, v: bool) {
    a.store(v, Ordering::SeqCst);
}

} // verus!
