//! The message bus: the single ingestion point of the live event stream,
//! fanned out to any number of subscribers on two broadcast channels. The raw
//! channel carries every event; the filtered one leaves out the bot's own.
//! Each subscriber keeps a bounded backlog: one that falls behind loses its
//! oldest pending events rather than holding up the publisher.

use crate::message::Message;
use std::sync::Arc;
use tokio::sync::broadcast::{Receiver, Sender};
use vstd::prelude::*;

verus! {

#[verifier::external_type_specification]
#[verifier::external_body]
#[verifier::reject_recursive_types(T)]
pub struct ExSender<T>(Sender<T>);

#[verifier::external_type_specification]
#[verifier::external_body]
#[verifier::reject_recursive_types(T)]
pub struct ExReceiver<T>(Receiver<T>);

/// Pending events each subscriber may hold before it starts losing the oldest.
pub const BACKLOG: usize = 256;

/// Relies on `tokio::sync::broadcast::channel`: a channel whose receivers
/// each keep at most `capacity` pending values. It panics on a capacity of
/// zero or above `usize::MAX / 2`. The receiver it also returns is dropped.
#[verifier::external_body]
fn broadcast_channel(capacity: usize) -> (tx: Sender<Arc<Message>>)
    requires
        0 < capacity <= usize::MAX / 2,
{
    tokio::sync::broadcast::channel(capacity).0
}

/// Relies on `tokio::sync::broadcast::Sender::send`: it hands the value to
/// every receiver subscribed at that moment and never blocks. Whether any
/// receiver was there is not reported.
#[verifier::external_body]
fn offer(tx: &Sender<Arc<Message>>, msg: Arc<Message>) {
    let _ = tx.send(msg);
}

/// Relies on `tokio::sync::broadcast::Sender::subscribe`: a receiver of the
/// values sent after this call, and of none sent before it. Tokio panics past `usize::MAX >> 2` live
/// receivers, a count no process reaches.
#[verifier::external_body]
fn subscribe(tx: &Sender<Arc<Message>>) -> (rx: Receiver<Arc<Message>>) {
    tx.subscribe()
}

/// Where one published event goes.
#[derive(Debug, Clone, Copy, PartialEq, Eq, Structural)]
pub struct Route {
    /// Offered to the raw subscribers.
    pub raw: bool,
    /// Offered to the filtered subscribers.
    pub filtered: bool,
}

/// Every event goes to the raw channel; only events not authored by the bot
/// go to the filtered one.
pub open spec fn route_of(m: Message, bot_user_id: Seq<char>) -> Route {
    Route { raw: true, filtered: m.user@ != bot_user_id }
}

/// Where an event by `msg.user` goes, given the bot's own user id.
pub fn route(msg: &Message, bot_user_id: &String) -> (r: Route)
    ensures
        r == route_of(*msg, bot_user_id@),
{
    Route { raw: true, filtered: msg.user != *bot_user_id }
}

/// The message a shared handle points to.
spec fn held(a: &Arc<Message>) -> Message {
    **a
}

/// Which of the bus's two channels.
#[derive(Debug, Clone, Copy, PartialEq, Eq, Structural)]
pub enum Feed {
    /// Every event.
    Raw,
    /// The events not authored by the bot.
    Filtered,
}

/// One broadcast channel of the bus, with the record of every event it has
/// been offered, in order. Events reach the channel only through `offer`,
/// which extends the record.
pub struct Outlet {
    tx: Sender<Arc<Message>>,
    feed: Feed,
    capacity: usize,
    log: Ghost<Seq<Message>>,
}

/// A receive handle on one channel of the bus. It receives the events that
/// channel is offered from position `start` of its record on: those offered
/// after the subscription, minus any it falls too far behind on.
pub struct Subscription {
    rx: Receiver<Arc<Message>>,
    feed: Feed,
    start: Ghost<nat>,
}

impl Subscription {
    /// The channel this handle receives from.
    pub closed spec fn feed(&self) -> Feed {
        self.feed
    }

    /// The first position of the channel's record this handle can receive.
    pub closed spec fn start(&self) -> nat {
        self.start@
    }

    /// The underlying receiver.
    pub fn receiver(self) -> Receiver<Arc<Message>> {
        self.rx
    }
}

impl Outlet {
    /// Which channel this is.
    pub closed spec fn feed(&self) -> Feed {
        self.feed
    }

    /// How many pending events each subscriber may hold.
    pub closed spec fn capacity(&self) -> nat {
        self.capacity as nat
    }

    /// Every event this channel has been offered, oldest first.
    pub closed spec fn log(&self) -> Seq<Message> {
        self.log@
    }

    fn new(feed: Feed, capacity: usize) -> (r: Outlet)
        requires
            0 < capacity <= usize::MAX / 2,
        ensures
            r.feed() == feed,
            r.capacity() == capacity,
            r.log() == Seq::<Message>::empty(),
    {
        Outlet { tx: broadcast_channel(capacity), feed, capacity, log: Ghost(Seq::empty()) }
    }

    /// Offers `msg` to everyone subscribed to this channel now.
    fn offer(&mut self, msg: Arc<Message>)
        ensures
            final(self).log() == old(self).log().push(*msg),
            final(self).feed() == old(self).feed(),
            final(self).capacity() == old(self).capacity(),
    {
        let ghost m = held(&msg);
        offer(&self.tx, msg);
        self.log = Ghost(self.log@.push(m));
    }

    /// A handle that receives what this channel is offered from now on.
    fn subscribe(&self) -> (r: Subscription)
        ensures
            r.feed() == self.feed(),
            r.start() == self.log().len(),
    {
        Subscription { rx: subscribe(&self.tx), feed: self.feed, start: Ghost(self.log@.len()) }
    }
}

/// The bus: the bot's identity and its two broadcast channels.
pub struct Chatbot {
    bot_user_id: String,
    filtered: Outlet,
    raw: Outlet,
}

impl Chatbot {
    /// The id of the bot's own user: its events stay off the filtered channel.
    pub closed spec fn bot(&self) -> Seq<char> {
        self.bot_user_id@
    }

    /// Every event offered on the raw channel, oldest first.
    pub closed spec fn raw_log(&self) -> Seq<Message> {
        self.raw.log()
    }

    /// Every event offered on the filtered channel, oldest first.
    pub closed spec fn filtered_log(&self) -> Seq<Message> {
        self.filtered.log()
    }

    /// How many pending events each subscriber of either channel may hold.
    pub closed spec fn capacity(&self) -> nat {
        self.raw.capacity()
    }

    /// Each channel knows which it is, and both have the same backlog.
    pub closed spec fn wf(&self) -> bool {
        &&& self.raw.feed() == Feed::Raw
        &&& self.filtered.feed() == Feed::Filtered
        &&& self.filtered.capacity() == self.raw.capacity()
    }

    /// A bus whose subscribers each keep up to `BACKLOG` pending events.
    /// Nothing has been offered on it yet.
    pub fn new(bot_user_id: String) -> (r: Chatbot)
        ensures
            r.wf(),
            r.bot() == bot_user_id@,
            r.capacity() == BACKLOG,
            r.raw_log() == Seq::<Message>::empty(),
            r.filtered_log() == Seq::<Message>::empty(),
    {
        Chatbot::with_capacity(bot_user_id, BACKLOG)
    }

    /// A bus whose subscribers each keep up to `capacity` pending events.
    /// Nothing has been offered on it yet.
    pub fn with_capacity(bot_user_id: String, capacity: usize) -> (r: Chatbot)
        requires
            0 < capacity <= usize::MAX / 2,
        ensures
            r.wf(),
            r.bot() == bot_user_id@,
            r.capacity() == capacity,
            r.raw_log() == Seq::<Message>::empty(),
            r.filtered_log() == Seq::<Message>::empty(),
    {
        Chatbot {
            bot_user_id,
            filtered: Outlet::new(Feed::Filtered, capacity),
            raw: Outlet::new(Feed::Raw, capacity),
        }
    }

    /// The id of the bot's own user.
    pub fn bot_user_id(&self) -> (r: &String)
        ensures
            r@ == self.bot(),
    {
        &self.bot_user_id
    }

    /// A subscription to the events not authored by the bot, from now on.
    pub fn messages(&self) -> (r: Subscription)
        requires
            self.wf(),
        ensures
            r.feed() == Feed::Filtered,
            r.start() == self.filtered_log().len(),
    {
        self.filtered.subscribe()
    }

    /// A subscription to every event, from now on.
    pub fn raw_messages(&self) -> (r: Subscription)
        requires
            self.wf(),
        ensures
            r.feed() == Feed::Raw,
            r.start() == self.raw_log().len(),
    {
        self.raw.subscribe()
    }

    /// Delivers an event to the raw subscribers and, unless the bot wrote it,
    /// to the filtered ones. Never blocks on a subscriber. Published in
    /// turn, events are offered on each channel in stream order; a
    /// bot-authored event is offered on the raw channel and never on the
    /// filtered one.
    pub fn publish(&mut self, msg: Message) -> (r: Route)
        requires
            old(self).wf(),
        ensures
            final(self).wf(),
            final(self).bot() == old(self).bot(),
            final(self).capacity() == old(self).capacity(),
            r == route_of(msg, old(self).bot()),
            final(self).raw_log() == old(self).raw_log().push(msg),
            final(self).filtered_log() == if msg.user@ != old(self).bot() {
                old(self).filtered_log().push(msg)
            } else {
                old(self).filtered_log()
            },
    {
        let r = route(&msg, &self.bot_user_id);
        let msg = Arc::new(msg);
        if r.filtered {
            self.raw.offer(crate::message::share(&msg));
            self.filtered.offer(msg);
        } else {
            self.raw.offer(msg);
        }
        r
    }
}

} // verus!
