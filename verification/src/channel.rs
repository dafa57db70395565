//! The bounded channels of `tokio` that join the parser to its client.
//!
//! What a channel answers depends on the task at its other end, so the contracts
//! of the calls into `tokio`, which are believed and not proved, promise only
//! what holds of every answer. An [`Outlet`] remembers what its channel was given
//! and what it answered, an [`Inlet`] what its channel replied, and everything
//! above them is proved over those records.

use tokio::sync::mpsc::{error::SendError, error::TrySendError, Receiver, Sender};
use vstd::prelude::*;

verus! {

/// `tokio::sync::mpsc::Sender`: the sending half of a bounded channel.
#[verifier::external_type_specification]
#[verifier::external_body]
#[verifier::reject_recursive_types(T)]
pub struct ExSender<T>(Sender<T>);

/// `tokio::sync::mpsc::Receiver`: the receiving half of a bounded channel.
#[verifier::external_type_specification]
#[verifier::external_body]
#[verifier::reject_recursive_types(T)]
pub struct ExReceiver<T>(Receiver<T>);

/// The answer to an attempt to send without waiting.
pub enum TrySend<T> {
    /// The channel took the message.
    Sent,
    /// The channel has no room now; this is the message.
    Full(T),
    /// Nobody receives any more; this is the message.
    Closed(T),
}

/// What is left to do after an attempt to send without waiting.
pub enum Next<T> {
    /// Nothing: the message was delivered, or it cannot be.
    Done(bool),
    /// Send this message and wait for room.
    Wait(T),
}

/// `Sender::is_closed`: whether the receiving half is gone. The answer is the
/// other task's doing.
#[verifier::external_body]
pub(crate) fn sender_is_closed<T>(tx: &Sender<T>) -> (closed: bool) {
    tx.is_closed()
}

/// `Sender::try_send`: sends without waiting. A message that was not taken
/// comes back unchanged; whether it is taken is the other task's doing.
#[verifier::external_body]
pub(crate) fn sender_try_send<T>(tx: &Sender<T>, message: T) -> (answer: TrySend<T>)
    ensures
        answer is Sent || answer == TrySend::Full(message) || answer == TrySend::Closed(message),
{
    match tx.try_send(message) {
        Ok(()) => TrySend::Sent,
        Err(TrySendError::Full(message)) => TrySend::Full(message),
        Err(TrySendError::Closed(message)) => TrySend::Closed(message),
    }
}

/// `Sender::blocking_send`: sends and waits for room. A message that was not
/// taken comes back unchanged; whether it is taken is the other task's doing.
/// It is for threads outside the asynchronous runtime: the outside function
/// panics inside an asynchronous task.
#[verifier::external_body]
pub(crate) fn sender_blocking_send<T>(tx: &Sender<T>, message: T) -> (answer: Result<(), T>)
    ensures
        answer matches Err(back) ==> back == message,
{
    match tx.blocking_send(message) {
        Ok(()) => Ok(()),
        Err(SendError(message)) => Err(message),
    }
}

/// `Receiver::blocking_recv`: waits for the next message; `None` when every
/// sender is gone. What comes is the other task's doing. It is for threads
/// outside the asynchronous runtime: the outside function panics inside an
/// asynchronous task.
#[verifier::external_body]
pub(crate) fn receiver_blocking_recv<T>(rx: &mut Receiver<T>) -> (message: Option<T>) {
    rx.blocking_recv()
}

/// Decides what follows an attempt to send without waiting: only a full
/// channel is worth waiting for.
pub fn after_try_send<T>(answer: TrySend<T>) -> (next: Next<T>)
    ensures
        next == match answer {
            TrySend::Sent => Next::Done(true),
            TrySend::Full(message) => Next::Wait(message),
            TrySend::Closed(_) => Next::Done(false),
        },
{
    match answer {
        TrySend::Sent => Next::Done(true),
        TrySend::Full(message) => Next::Wait(message),
        TrySend::Closed(_) => Next::Done(false),
    }
}

/// One exchange with a channel: what it was given, and what it answered.
pub enum Exchange<T> {
    /// It was asked whether its receiving half is gone.
    Asked {
        /// Its answer.
        closed: bool,
    },
    /// It was given a message without waiting.
    Tried {
        /// The message.
        message: T,
        /// Its answer.
        answer: TrySend<T>,
    },
    /// It was given a message and waited for.
    Waited {
        /// The message.
        message: T,
        /// Whether it took the message.
        taken: bool,
    },
}

/// Whether these exchanges send `message` with this result: it is tried without
/// waiting, and only where the channel was full it is given again and waited
/// for.
pub open spec fn sent_waiting<T>(
    message: T,
    exchanges: Seq<Exchange<T>>,
    delivered: bool,
) -> bool {
    ||| delivered && exchanges == seq![Exchange::Tried { message, answer: TrySend::Sent }]
    ||| !delivered && exchanges == seq![
        Exchange::Tried { message, answer: TrySend::Closed(message) },
    ]
    ||| exchanges == seq![
        Exchange::Tried { message, answer: TrySend::Full(message) },
        Exchange::Waited { message, taken: delivered },
    ]
}

/// A sender that remembers, for proofs alone, every exchange with its channel.
#[verifier::reject_recursive_types(T)]
pub struct Outlet<'a, T> {
    tx: &'a Sender<T>,
    exchanges: Ghost<Seq<Exchange<T>>>,
}

impl<'a, T> Outlet<'a, T> {
    /// The channel.
    pub closed spec fn channel(&self) -> Sender<T> {
        *self.tx
    }

    /// The exchanges with the channel, in order.
    pub closed spec fn exchanges(&self) -> Seq<Exchange<T>> {
        self.exchanges@
    }

    /// An outlet on `tx`, before any exchange.
    pub fn new(tx: &'a Sender<T>) -> (outlet: Self)
        ensures
            outlet.channel() == *tx,
            outlet.exchanges() == Seq::<Exchange<T>>::empty(),
    {
        Outlet { tx, exchanges: Ghost(Seq::empty()) }
    }

    /// Asks whether the receiving half is gone, which is the other task's doing.
    pub fn is_closed(&mut self) -> (closed: bool)
        ensures
            final(self).channel() == old(self).channel(),
            final(self).exchanges() == old(self).exchanges().push(Exchange::Asked { closed }),
    {
        let closed: bool = sender_is_closed(self.tx);
        proof {
            self.exchanges@ = self.exchanges@.push(Exchange::Asked { closed });
        }
        closed
    }

    /// Gives the channel a message without waiting. Whether it is taken is the
    /// other task's doing.
    fn try_send(&mut self, message: T) -> (answer: TrySend<T>)
        ensures
            final(self).channel() == old(self).channel(),
            final(self).exchanges() == old(self).exchanges().push(
                Exchange::Tried { message, answer },
            ),
            answer is Sent || answer == TrySend::Full(message) || answer == TrySend::Closed(
                message,
            ),
    {
        let ghost given = message;
        let answer: TrySend<T> = sender_try_send(self.tx, message);
        proof {
            self.exchanges@ = self.exchanges@.push(Exchange::Tried { message: given, answer });
        }
        answer
    }

    /// Gives the channel a message and waits for room. Whether it is taken is
    /// the other task's doing.
    pub fn blocking_send(&mut self, message: T) -> (taken: bool)
        ensures
            final(self).channel() == old(self).channel(),
            final(self).exchanges() == old(self).exchanges().push(
                Exchange::Waited { message, taken },
            ),
    {
        let ghost given = message;
        let taken: bool = sender_blocking_send(self.tx, message).is_ok();
        proof {
            self.exchanges@ = self.exchanges@.push(Exchange::Waited { message: given, taken });
        }
        taken
    }
}

/// A receiver that remembers, for proofs alone, every reply of its channel.
#[verifier::reject_recursive_types(T)]
pub struct Inlet<T> {
    rx: Receiver<T>,
    replies: Ghost<Seq<Option<T>>>,
}

impl<T> Inlet<T> {
    /// The replies of the channel, in order. A missing message means that every
    /// sender was gone when the channel was asked.
    pub closed spec fn replies(&self) -> Seq<Option<T>> {
        self.replies@
    }

    /// An inlet on `rx`, before any reply.
    pub fn new(rx: Receiver<T>) -> (inlet: Self)
        ensures
            inlet.replies() == Seq::<Option<T>>::empty(),
    {
        Inlet { rx, replies: Ghost(Seq::empty()) }
    }

    /// Waits for the next message; `None` when every sender is gone. What comes
    /// is the other task's doing.
    pub fn blocking_recv(&mut self) -> (message: Option<T>)
        ensures
            final(self).replies() == old(self).replies().push(message),
    {
        let message: Option<T> = receiver_blocking_recv(&mut self.rx);
        proof {
            self.replies@ = self.replies@.push(message);
        }
        message
    }
}

/// Sends from a blocking thread, waiting only when the channel is full.
/// Answers whether the message was delivered, which is for the other task to
/// decide.
pub fn send_waiting<T>(outlet: &mut Outlet<T>, message: T) -> (delivered: bool)
    ensures
        final(outlet).channel() == old(outlet).channel(),
        ({
            let new = final(outlet).exchanges().skip(old(outlet).exchanges().len() as int);
            &&& final(outlet).exchanges() == old(outlet).exchanges() + new
            &&& sent_waiting(message, new, delivered)
        }),
{
    let ghost given = message;
    let ghost before = outlet.exchanges();
    let answer: TrySend<T> = outlet.try_send(message);
    let ghost tried = Exchange::Tried { message: given, answer };
    match after_try_send(answer) {
        Next::Done(delivered) => {
            assert(outlet.exchanges().skip(before.len() as int) =~= seq![tried]);
            delivered
        },
        Next::Wait(message) => {
            let taken: bool = outlet.blocking_send(message);
            assert(outlet.exchanges().skip(before.len() as int) =~= seq![
                tried,
                Exchange::Waited { message: given, taken },
            ]);
            taken
        },
    }
}

/// What sending came to is what the channel said last: a message counts as
/// delivered exactly where the channel took it, every exchange is about that
/// message, and the channel is waited for only after it was full.
pub proof fn law_delivery_is_the_last_word<T>(
    message: T,
    exchanges: Seq<Exchange<T>>,
    delivered: bool,
)
    requires
        sent_waiting(message, exchanges, delivered),
    ensures
        1 <= exchanges.len() <= 2,
        exchanges[0] matches Exchange::Tried { message: given, answer } && given == message && (
        answer is Full <==> exchanges.len() == 2) && (exchanges.len() == 1 ==> (delivered <==> answer is Sent)),
        exchanges.len() == 2 ==> (exchanges[1] matches Exchange::Waited { message: given, taken }
            && given == message && taken == delivered),
{
}

} // verus!
