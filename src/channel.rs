//! A channel: one main thread for un-threaded traffic, and one reply thread
//! per thread root.

use crate::keyed::{has_key, keys_unique, lemma_map_at, lemma_map_insert, lemma_map_update, map_of, Keyed};
use crate::message::{msgs, reply_root, Message};
use crate::thread::{
    at_most, chronological, entry, has_ts, lemma_newest_first, thread_insert, upto, window, Thread,
};
use crate::timestamp::{compare_ts, lemma_ts_irreflexive, lemma_ts_transitive, ts_before};
use core::cmp::Ordering;
use std::sync::Arc;
use vstd::prelude::*;

verus! {

/// What a channel holds: its main thread, and its reply threads by root timestamp.
pub struct ChannelModel {
    pub main: Seq<Message>,
    pub replies: Map<Seq<char>, Seq<Message>>,
}

/// The thread that `m` belongs to in `c`: empty where that reply thread does not exist yet.
pub open spec fn owning(c: ChannelModel, m: Message) -> Seq<Message> {
    match reply_root(m) {
        None => c.main,
        Some(r) => if c.replies.contains_key(r) {
            c.replies[r]
        } else {
            Seq::empty()
        },
    }
}

/// `c` after inserting `m` into the thread it belongs to.
pub open spec fn channel_insert(c: ChannelModel, m: Message) -> ChannelModel {
    match reply_root(m) {
        None => ChannelModel { main: thread_insert(c.main, m), replies: c.replies },
        Some(r) => ChannelModel {
            main: c.main,
            replies: c.replies.insert(r, thread_insert(owning(c, m), m)),
        },
    }
}

/// Whether the thread `m` belongs to holds its timestamp.
pub open spec fn channel_contains(c: ChannelModel, m: Message) -> bool {
    has_ts(owning(c, m), m.ts@)
}

/// The root of `m`'s thread, taken from the main thread; none for a message
/// without a thread parent.
pub open spec fn channel_parent(c: ChannelModel, m: Message) -> Option<Message> {
    match m.thread_ts {
        Some(root) => entry(c.main, root@),
        None => None,
    }
}

/// Everything visible to `m`, newest first. For a reply: the entries of its
/// thread at or before it, then the main thread's entries at or before the
/// root. For a main-thread message: the main thread's entries at or before it.
pub open spec fn visible(c: ChannelModel, m: Message) -> Seq<Message> {
    match reply_root(m) {
        None => upto(c.main, m.ts@).reverse(),
        Some(r) => upto(owning(c, m), m.ts@).reverse() + upto(c.main, r).reverse(),
    }
}

/// Every thread of the channel is chronological.
pub open spec fn channel_wf(c: ChannelModel) -> bool {
    &&& chronological(c.main)
    &&& forall|r: Seq<char>| #[trigger] c.replies.contains_key(r) ==> chronological(c.replies[r])
}

/// A reply sees its thread's messages not later than itself, newest first,
/// then the main thread's messages not later than the thread's root, newest
/// first: each part strictly decreasing, and nothing of the main thread
/// after the root.
pub proof fn lemma_reply_history(c: ChannelModel, m: Message, root: Seq<char>)
    requires
        channel_wf(c),
        reply_root(m) == Some(root),
    ensures
        visible(c, m) == upto(owning(c, m), m.ts@).reverse() + upto(c.main, root).reverse(),
        forall|x: Message|
            #[trigger] upto(owning(c, m), m.ts@).reverse().contains(x) <==> (owning(c, m).contains(x) && !ts_before(
                m.ts@,
                x.ts@,
            )),
        forall|x: Message|
            #[trigger] upto(c.main, root).reverse().contains(x) <==> (c.main.contains(x) && !ts_before(root, x.ts@)),
        forall|i: int, j: int|
            0 <= i < j < upto(owning(c, m), m.ts@).reverse().len() ==> ts_before(
                #[trigger] upto(owning(c, m), m.ts@).reverse()[j].ts@,
                #[trigger] upto(owning(c, m), m.ts@).reverse()[i].ts@,
            ),
        forall|i: int, j: int|
            0 <= i < j < upto(c.main, root).reverse().len() ==> ts_before(
                #[trigger] upto(c.main, root).reverse()[j].ts@,
                #[trigger] upto(c.main, root).reverse()[i].ts@,
            ),
{
    assert(chronological(owning(c, m))) by {
        if !c.replies.contains_key(root) {
            assert(chronological(Seq::<Message>::empty()));
        }
    }
    lemma_newest_first(owning(c, m), m.ts@);
    lemma_newest_first(c.main, root);
}

/// Reply threads in increasing order of their roots.
spec fn roots_sorted(s: Seq<Keyed<Thread>>) -> bool {
    forall|i: int, j: int| 0 <= i < j < s.len() ==> ts_before((#[trigger] s[i]).key@, (#[trigger] s[j]).key@)
}

/// A channel: the main thread and the reply threads.
#[derive(Debug)]
pub struct Channel {
    main: Thread,
    threads: Vec<Keyed<Thread>>,
}

impl View for Channel {
    type V = ChannelModel;

    closed spec fn view(&self) -> ChannelModel {
        ChannelModel { main: self.main@, replies: map_of(self.threads@) }
    }
}

impl Channel {
    pub closed spec fn wf(&self) -> bool {
        &&& self.main.wf()
        &&& roots_sorted(self.threads@)
        &&& keys_unique(self.threads@)
        &&& forall|i: int| 0 <= i < self.threads@.len() ==> (#[trigger] self.threads@[i]).value.wf()
    }

    /// A well-formed channel has chronological threads.
    pub proof fn lemma_wf(&self)
        requires
            self.wf(),
        ensures
            channel_wf(self@),
    {
        assert forall|r: Seq<char>| #[trigger] self@.replies.contains_key(r) implies chronological(self@.replies[r]) by {
            let s = self.threads@;
            let k = choose|k: int| 0 <= k < s.len() && (#[trigger] s[k]).key@ == r;
            lemma_map_at(s, k);
            assert(s[k].value.wf());
        }
    }

    pub fn new() -> (r: Channel)
        ensures
            r.wf(),
            r@.main == Seq::<Message>::empty(),
            r@.replies == Map::<Seq<char>, Seq<Message>>::empty(),
    {
        let r = Channel { main: Thread::new(), threads: Vec::new() };
        assert(r@.replies =~= Map::<Seq<char>, Seq<Message>>::empty());
        r
    }

    /// Binary search for the reply thread of `root`: `Ok` with its position,
    /// or `Err` with the position where it would be inserted.
    fn thread_index(&self, root: &String) -> (r: Result<usize, usize>)
        requires
            self.wf(),
        ensures
            match r {
                Ok(i) => i < self.threads@.len() && self.threads@[i as int].key@ == root@,
                Err(p) => {
                    &&& p <= self.threads@.len()
                    &&& !has_key(self.threads@, root@)
                    &&& forall|i: int| 0 <= i < p ==> ts_before((#[trigger] self.threads@[i]).key@, root@)
                    &&& forall|i: int| p <= i < self.threads@.len() ==> ts_before(root@, (#[trigger] self.threads@[i]).key@)
                },
            },
    {
        let ghost s = self.threads@;
        let mut lo: usize = 0;
        let mut hi: usize = self.threads.len();
        while lo < hi
            invariant
                s == self.threads@,
                roots_sorted(s),
                lo <= hi <= s.len(),
                forall|i: int| 0 <= i < lo ==> ts_before((#[trigger] s[i]).key@, root@),
                forall|i: int| hi <= i < s.len() ==> ts_before(root@, (#[trigger] s[i]).key@),
            decreases hi - lo,
        {
            let mid = lo + (hi - lo) / 2;
            match compare_ts(self.threads[mid].key.as_str(), root.as_str()) {
                Ordering::Less => {
                    assert forall|i: int| 0 <= i < mid + 1 implies ts_before((#[trigger] s[i]).key@, root@) by {
                        if i < mid {
                            lemma_ts_transitive(s[i].key@, s[mid as int].key@, root@);
                        }
                    }
                    lo = mid + 1;
                },
                Ordering::Greater => {
                    assert forall|i: int| mid <= i < s.len() implies ts_before(root@, (#[trigger] s[i]).key@) by {
                        if i > mid {
                            lemma_ts_transitive(root@, s[mid as int].key@, s[i].key@);
                        }
                    }
                    hi = mid;
                },
                Ordering::Equal => {
                    return Ok(mid);
                },
            }
        }
        proof {
            if has_key(s, root@) {
                let k = choose|k: int| 0 <= k < s.len() && (#[trigger] s[k]).key@ == root@;
                assert(s[k].key@ == root@);
                lemma_ts_irreflexive(root@);
            }
        }
        Err(lo)
    }

    /// The thread that `msg` belongs to; none where that reply thread does not exist.
    pub fn thread(&self, msg: &Message) -> (r: Option<&Thread>)
        requires
            self.wf(),
        ensures
            r is Some <==> (reply_root(*msg) is None || self@.replies.contains_key(reply_root(*msg)->0)),
            match r {
                Some(t) => t.wf() && t@ == owning(self@, *msg),
                None => reply_root(*msg) is Some && !self@.replies.contains_key(reply_root(*msg)->0),
            },
    {
        match msg.reply_root() {
            None => Some(&self.main),
            Some(root) => match self.thread_index(root) {
                Ok(i) => {
                    proof {
                        lemma_map_at(self.threads@, i as int);
                    }
                    Some(&self.threads[i].value)
                },
                Err(_) => None,
            },
        }
    }

    /// Whether the thread that `msg` belongs to holds its timestamp.
    pub fn contains(&self, msg: &Message) -> (r: bool)
        requires
            self.wf(),
        ensures
            r == channel_contains(self@, *msg),
    {
        match self.thread(msg) {
            Some(thread) => thread.contains(msg.ts.as_str()),
            None => false,
        }
    }

    /// The root of `msg`'s thread, from the main thread.
    pub fn parent(&self, msg: &Message) -> (r: Option<Arc<Message>>)
        requires
            self.wf(),
        ensures
            match r {
                Some(p) => channel_parent(self@, *msg) == Some(*p),
                None => channel_parent(self@, *msg) is None,
            },
    {
        match &msg.thread_ts {
            Some(root) => self.main.get(root.as_str()),
            None => None,
        }
    }

    /// Adds `msg` to the thread it belongs to, creating that thread if needed.
    /// Returns whether the message is new.
    pub fn insert(&mut self, msg: Arc<Message>) -> (added: bool)
        requires
            old(self).wf(),
        ensures
            final(self).wf(),
            final(self)@ == channel_insert(old(self)@, *msg),
            added == !channel_contains(old(self)@, *msg),
    {
        let ghost c = self@;
        match msg.reply_root() {
            None => self.main.insert(msg),
            Some(root) => {
                let root = root.clone();
                match self.thread_index(&root) {
                    Ok(i) => {
                        proof {
                            lemma_map_at(self.threads@, i as int);
                        }
                        let ghost s = self.threads@;
                        let slot = &mut self.threads[i];
                        let added = slot.value.insert(msg);
                        proof {
                            lemma_map_update(s, i as int, self.threads@[i as int]);
                            assert(self.threads@ =~= s.update(i as int, self.threads@[i as int]));
                            assert forall|a: int, b: int| 0 <= a < b < self.threads@.len() implies ts_before(
                                (#[trigger] self.threads@[a]).key@,
                                (#[trigger] self.threads@[b]).key@,
                            ) by {
                                assert(self.threads@[a].key@ == s[a].key@);
                                assert(self.threads@[b].key@ == s[b].key@);
                            }
                            assert forall|k: int| 0 <= k < self.threads@.len() implies (#[trigger] self.threads@[k]).value.wf() by {
                                if k != i {
                                    assert(self.threads@[k] == s[k]);
                                }
                            }
                        }
                        added
                    },
                    Err(p) => {
                        let mut thread = Thread::new();
                        let added = thread.insert(msg);
                        let ghost s = self.threads@;
                        let reply = Keyed { key: root, value: thread };
                        proof {
                            lemma_map_insert(s, p as int, reply);
                        }
                        self.threads.insert(p, reply);
                        proof {
                            let n = self.threads@;
                            assert(n =~= s.insert(p as int, reply));
                            assert forall|k: int| 0 <= k < n.len() implies (#[trigger] n[k]).value.wf() by {
                                if k < p {
                                    assert(n[k] == s[k]);
                                } else if k > p {
                                    assert(n[k] == s[k - 1]);
                                }
                            }
                            assert forall|a: int, b: int| 0 <= a < b < n.len() implies ts_before(
                                (#[trigger] n[a]).key@,
                                (#[trigger] n[b]).key@,
                            ) by {
                                if a < p && b > p {
                                    assert(n[a] == s[a]);
                                    assert(n[b] == s[b - 1]);
                                    lemma_ts_transitive(n[a].key@, reply.key@, n[b].key@);
                                } else if b < p {
                                    assert(n[a] == s[a]);
                                    assert(n[b] == s[b]);
                                } else if a > p {
                                    assert(n[a] == s[a - 1]);
                                    assert(n[b] == s[b - 1]);
                                } else if a == p {
                                    assert(n[b] == s[b - 1]);
                                } else {
                                    assert(n[a] == s[a]);
                                }
                            }
                        }
                        added
                    },
                }
            },
        }
    }

    /// Up to `limit` messages visible to `msg`, newest first.
    pub fn history(&self, msg: &Message, limit: usize) -> (r: Vec<Arc<Message>>)
        requires
            self.wf(),
        ensures
            msgs(r@) == at_most(visible(self@, *msg), limit as nat),
    {
        match msg.reply_root() {
            None => self.main.history(msg.ts.as_str(), limit),
            Some(root) => {
                let found = self.thread(msg);
                let ghost missing = found is None;
                let mut part = match found {
                    Some(thread) => thread.history(msg.ts.as_str(), limit),
                    None => Vec::new(),
                };
                let ghost a = upto(owning(self@, *msg), msg.ts@).reverse();
                let ghost b = upto(self@.main, root@).reverse();
                proof {
                    if missing {
                        assert(upto(Seq::<Message>::empty(), msg.ts@) == Seq::<Message>::empty());
                        assert(msgs(part@) =~= at_most(a, limit as nat));
                    }
                    assert(msgs(part@).len() == part@.len());
                }
                let ghost p = part@;
                let mut rest = self.main.history(root.as_str(), limit - part.len());
                let ghost rv = rest@;
                part.append(&mut rest);
                proof {
                    let n = limit as nat;
                    assert(msgs(part@) =~= msgs(p) + msgs(rv));
                    assert(at_most(a + b, n) =~= at_most(a, n) + at_most(b, (n - at_most(a, n).len()) as nat));
                }
                part
            },
        }
    }
}

} // verus!
