//! The workspace: every channel's threads, by channel id. This is the shared
//! root of the history index.

use crate::channel::{
    channel_contains, channel_insert, channel_parent, channel_wf, owning, visible, Channel,
    ChannelModel,
};
use crate::keyed::{has_key, keys_unique, lemma_map_at, lemma_map_insert, lemma_map_update, map_of, position, Keyed};
use crate::message::{msgs, reply_root, Message};
use crate::thread::{
    at_most, chronological, entry, has_ts, lemma_latest_window, lemma_thread_insert, lemma_upto_members,
    thread_insert, upto, window,
};
use crate::timestamp::ts_before;
use std::sync::Arc;
use vstd::prelude::*;

verus! {

/// What the workspace holds: channels by id.
pub type WorkspaceModel = Map<Seq<char>, ChannelModel>;

/// A channel that has seen no message yet.
pub open spec fn empty_channel() -> ChannelModel {
    ChannelModel { main: Seq::empty(), replies: Map::empty() }
}

/// The channel that `m` was posted in; empty where it has not been seen.
pub open spec fn channel_of(w: WorkspaceModel, m: Message) -> ChannelModel {
    if w.contains_key(m.channel@) {
        w[m.channel@]
    } else {
        empty_channel()
    }
}

/// `w` after inserting `m`: its channel, and its thread there, are created
/// where they do not exist yet.
pub open spec fn ws_insert(w: WorkspaceModel, m: Message) -> WorkspaceModel {
    w.insert(m.channel@, channel_insert(channel_of(w, m), m))
}

/// Whether `m`'s timestamp is indexed in the thread it belongs to.
pub open spec fn ws_contains(w: WorkspaceModel, m: Message) -> bool {
    w.contains_key(m.channel@) && channel_contains(w[m.channel@], m)
}

/// The root message of `m`'s thread; none for a message without a thread parent.
pub open spec fn ws_parent(w: WorkspaceModel, m: Message) -> Option<Message> {
    if w.contains_key(m.channel@) {
        channel_parent(w[m.channel@], m)
    } else {
        None
    }
}

/// Up to `limit` messages visible to `m`, newest first; none where `m`'s
/// channel has not been seen.
pub open spec fn ws_history(w: WorkspaceModel, m: Message, limit: nat) -> Option<Seq<Message>> {
    if w.contains_key(m.channel@) {
        Some(at_most(visible(w[m.channel@], m), limit))
    } else {
        None
    }
}

/// Every thread of every channel is chronological.
pub open spec fn ws_wf(w: WorkspaceModel) -> bool {
    forall|id: Seq<char>| #[trigger] w.contains_key(id) ==> channel_wf(w[id])
}

/// `w` after inserting each of `ms`, in order.
pub open spec fn ws_insert_all(w: WorkspaceModel, ms: Seq<Message>) -> WorkspaceModel
    decreases ms.len(),
{
    if ms.len() == 0 {
        w
    } else {
        ws_insert(ws_insert_all(w, ms.drop_last()), ms.last())
    }
}

/// Inserting keeps every thread chronological.
pub proof fn lemma_ws_insert_wf(w: WorkspaceModel, m: Message)
    requires
        ws_wf(w),
    ensures
        ws_wf(ws_insert(w, m)),
{
    let c = channel_of(w, m);
    assert(channel_wf(c)) by {
        if !w.contains_key(m.channel@) {
            assert(chronological(empty_channel().main));
        }
    }
    let t = owning(c, m);
    assert(chronological(t));
    lemma_thread_insert(t, m);
    let c2 = channel_insert(c, m);
    assert(channel_wf(c2)) by {
        match reply_root(m) {
            None => {},
            Some(r) => {
                assert forall|k: Seq<char>| #[trigger] c2.replies.contains_key(k) implies chronological(c2.replies[k]) by {
                    if k != r {
                        assert(c.replies.contains_key(k));
                    }
                }
            },
        }
    }
    let w2 = ws_insert(w, m);
    assert forall|id: Seq<char>| #[trigger] w2.contains_key(id) implies channel_wf(w2[id]) by {
        if id != m.channel@ {
            assert(w.contains_key(id));
        }
    }
}

/// Inserting a message twice leaves the index exactly as inserting it once:
/// the same membership, the same threads and sizes, the same history for
/// every query.
pub proof fn lemma_insert_idempotent(w: WorkspaceModel, m: Message)
    requires
        ws_wf(w),
    ensures
        ws_insert(ws_insert(w, m), m) == ws_insert(w, m),
        forall|q: Message, n: nat|
            #[trigger] ws_history(ws_insert(ws_insert(w, m), m), q, n) == ws_history(ws_insert(w, m), q, n),
        forall|q: Message|
            #[trigger] ws_contains(ws_insert(ws_insert(w, m), m), q) == ws_contains(ws_insert(w, m), q),
{
    let c = channel_of(w, m);
    assert(channel_wf(c)) by {
        if !w.contains_key(m.channel@) {
            assert(chronological(empty_channel().main));
        }
    }
    let t = owning(c, m);
    lemma_thread_insert(t, m);
    let t1 = thread_insert(t, m);
    let c1 = channel_insert(c, m);
    let w1 = ws_insert(w, m);
    assert(channel_of(w1, m) == c1);
    assert(owning(c1, m) == t1);
    assert(thread_insert(t1, m) == t1);
    let c2 = channel_insert(c1, m);
    assert(c2 == c1) by {
        match reply_root(m) {
            None => {},
            Some(r) => {
                assert(c2.replies =~= c1.replies);
            },
        }
    }
    assert(ws_insert(w1, m) =~= w1);
}

/// Right after `m` is inserted, the index contains it; an index that has
/// seen nothing contains nothing.
pub proof fn lemma_contains_after_insert(w: WorkspaceModel, m: Message)
    requires
        ws_wf(w),
    ensures
        ws_contains(ws_insert(w, m), m),
        !ws_contains(WorkspaceModel::empty(), m),
{
    let c = channel_of(w, m);
    assert(channel_wf(c)) by {
        if !w.contains_key(m.channel@) {
            assert(chronological(empty_channel().main));
        }
    }
    lemma_thread_insert(owning(c, m), m);
    assert(owning(channel_insert(c, m), m) == thread_insert(owning(c, m), m));
}

/// A message without a thread parent has no parent; a message in a thread
/// has as parent the root message of that thread, taken from its channel's
/// main thread.
pub proof fn lemma_parent_is_root(w: WorkspaceModel, m: Message, root: Message)
    requires
        ws_wf(w),
    ensures
        m.thread_ts is None ==> ws_parent(w, m) is None,
        (m.thread_ts is Some && m.thread_ts->0@ == root.ts@ && w.contains_key(m.channel@)
            && w[m.channel@].main.contains(root)) ==> ws_parent(w, m) == Some(root),
{
    if m.thread_ts is Some && m.thread_ts->0@ == root.ts@ && w.contains_key(m.channel@)
        && w[m.channel@].main.contains(root) {
        let t = w[m.channel@].main;
        assert(chronological(t));
        let k = choose|k: int| 0 <= k < t.len() && t[k] == root;
        assert(has_ts(t, root.ts@));
        let c = choose|i: int| 0 <= i < t.len() && #[trigger] t[i].ts@ == root.ts@;
        if c < k {
            assert(ts_before(t[c].ts@, t[k].ts@));
            crate::timestamp::lemma_ts_irreflexive(root.ts@);
        } else if c > k {
            assert(ts_before(t[k].ts@, t[c].ts@));
            crate::timestamp::lemma_ts_irreflexive(root.ts@);
        }
    }
}

/// Messages of one channel's main thread, with distinct timestamps.
pub open spec fn one_main_thread(ms: Seq<Message>) -> bool {
    &&& forall|i: int| 0 <= i < ms.len() ==> (#[trigger] ms[i]).channel@ == ms[0].channel@ && reply_root(ms[i]) is None
    &&& forall|i: int, j: int| 0 <= i < j < ms.len() ==> (#[trigger] ms[i]).ts@ != (#[trigger] ms[j]).ts@
}

proof fn lemma_main_after_inserts(ms: Seq<Message>)
    requires
        ms.len() > 0,
        one_main_thread(ms),
    ensures
        ws_wf(ws_insert_all(WorkspaceModel::empty(), ms)),
        ws_insert_all(WorkspaceModel::empty(), ms).contains_key(ms[0].channel@),
        chronological(ws_insert_all(WorkspaceModel::empty(), ms)[ms[0].channel@].main),
        ws_insert_all(WorkspaceModel::empty(), ms)[ms[0].channel@].main.len() == ms.len(),
        forall|x: Message|
            ws_insert_all(WorkspaceModel::empty(), ms)[ms[0].channel@].main.contains(x) <==> ms.contains(x),
    decreases ms.len(),
{
    let e = WorkspaceModel::empty();
    let ch = ms[0].channel@;
    let m = ms.last();
    let rest = ms.drop_last();
    assert(m.channel@ == ch && reply_root(m) is None);
    if rest.len() == 0 {
        assert(ws_insert_all(e, rest) == e);
        assert(ws_wf(e));
        lemma_ws_insert_wf(e, m);
        let t: Seq<Message> = Seq::empty();
        assert(!has_ts(t, m.ts@));
        lemma_thread_insert(t, m);
        assert(channel_of(e, m) == empty_channel());
        assert forall|x: Message| ms.contains(x) <==> x == m by {
            if ms.contains(x) {
                let k = choose|k: int| 0 <= k < ms.len() && ms[k] == x;
                assert(k == 0);
            }
            assert(ms[0] == m);
        }
    } else {
        assert(one_main_thread(rest)) by {
            assert forall|i: int| 0 <= i < rest.len() implies (#[trigger] rest[i]).channel@ == rest[0].channel@ && reply_root(rest[i]) is None by {
                assert(rest[i] == ms[i]);
                assert(rest[0] == ms[0]);
            }
            assert forall|i: int, j: int| 0 <= i < j < rest.len() implies (#[trigger] rest[i]).ts@ != (#[trigger] rest[j]).ts@ by {
                assert(rest[i] == ms[i]);
                assert(rest[j] == ms[j]);
            }
        }
        lemma_main_after_inserts(rest);
        assert(rest[0] == ms[0]);
        let w = ws_insert_all(e, rest);
        lemma_ws_insert_wf(w, m);
        let t = w[ch].main;
        assert(!has_ts(t, m.ts@)) by {
            if has_ts(t, m.ts@) {
                let k = choose|k: int| 0 <= k < t.len() && #[trigger] t[k].ts@ == m.ts@;
                assert(t.contains(t[k]));
                assert(rest.contains(t[k]));
                let j = choose|j: int| 0 <= j < rest.len() && rest[j] == t[k];
                assert(ms[j] == rest[j]);
                assert(ms[j].ts@ != ms[ms.len() - 1].ts@);
            }
        }
        lemma_thread_insert(t, m);
        assert(channel_of(w, m) == w[ch]);
        assert forall|x: Message| ms.contains(x) <==> (rest.contains(x) || x == m) by {
            if ms.contains(x) {
                let k = choose|k: int| 0 <= k < ms.len() && ms[k] == x;
                if k < rest.len() {
                    assert(rest[k] == x);
                }
            }
            if rest.contains(x) {
                let k = choose|k: int| 0 <= k < rest.len() && rest[k] == x;
                assert(ms[k] == x);
            }
            assert(ms[ms.len() - 1] == m);
        }
    }
}

/// The history of the last of `ms` after inserting all of them, in order,
/// into an empty index.
pub open spec fn latest_history(ms: Seq<Message>, limit: nat) -> Option<Seq<Message>> {
    ws_history(ws_insert_all(WorkspaceModel::empty(), ms), ms.last(), limit)
}

/// Inserting messages of one main thread, with distinct timestamps, then
/// asking for the history of the last one inserted gives the inserted
/// messages not later than it, in strictly decreasing timestamp order,
/// starting with it, and cut at the limit.
pub proof fn lemma_history_of_latest(ms: Seq<Message>, limit: nat)
    requires
        0 < ms.len(),
        one_main_thread(ms),
    ensures
        latest_history(ms, ms.len()) is Some,
        latest_history(ms, limit) == Some(at_most(latest_history(ms, ms.len())->0, limit)),
        forall|i: int, j: int|
            0 <= i < j < latest_history(ms, ms.len())->0.len() ==> ts_before(
                #[trigger] latest_history(ms, ms.len())->0[j].ts@,
                #[trigger] latest_history(ms, ms.len())->0[i].ts@,
            ),
        forall|x: Message|
            #[trigger] latest_history(ms, ms.len())->0.contains(x) <==> (ms.contains(x) && !ts_before(
                ms.last().ts@,
                x.ts@,
            )),
        limit > 0 ==> latest_history(ms, limit)->0[0] == ms.last(),
{
    lemma_main_after_inserts(ms);
    let w = ws_insert_all(WorkspaceModel::empty(), ms);
    let m = ms.last();
    assert(m == ms[ms.len() - 1]);
    assert(m.channel@ == ms[0].channel@ && reply_root(m) is None);
    let t = w[ms[0].channel@].main;
    lemma_latest_window(t, ms, limit);
    lemma_latest_window(t, ms, ms.len());
    lemma_upto_members(t, m.ts@);
    let u = upto(t, m.ts@);
    let q = choose|q: int| 0 <= q <= t.len() && u == t.take(q);
    assert(at_most(u.reverse(), ms.len()) == u.reverse());
    assert(latest_history(ms, ms.len()) == Some(u.reverse()));
    assert(latest_history(ms, limit) == Some(window(t, m.ts@, limit)));
}

/// Each thread of every channel holds only messages that belong to it: the
/// main thread those without a reply root, a reply thread those of its root.
pub open spec fn ws_placed(w: WorkspaceModel) -> bool {
    forall|id: Seq<char>| #[trigger] w.contains_key(id) ==> {
        &&& forall|i: int| 0 <= i < w[id].main.len() ==> reply_root(#[trigger] w[id].main[i]) is None
        &&& forall|r: Seq<char>, i: int| #[trigger] w[id].replies.contains_key(r) && 0 <= i < w[id].replies[r].len()
            ==> reply_root(#[trigger] w[id].replies[r][i]) == Some(r)
    }
}

proof fn lemma_ws_insert_placed(w: WorkspaceModel, m: Message)
    requires
        ws_wf(w),
        ws_placed(w),
    ensures
        ws_placed(ws_insert(w, m)),
{
    let c = channel_of(w, m);
    assert(channel_wf(c)) by {
        if !w.contains_key(m.channel@) {
            assert(chronological(empty_channel().main));
        }
    }
    let t = owning(c, m);
    lemma_thread_insert(t, m);
    let t2 = thread_insert(t, m);
    let w2 = ws_insert(w, m);
    let c2 = w2[m.channel@];
    assert forall|i: int| 0 <= i < c2.main.len() implies reply_root(#[trigger] c2.main[i]) is None by {
        if reply_root(m) is None {
            assert(t2.contains(c2.main[i]));
            if c.main.contains(c2.main[i]) && c2.main[i] != m {
                let k = choose|k: int| 0 <= k < c.main.len() && c.main[k] == c2.main[i];
                assert(w.contains_key(m.channel@));
                assert(reply_root(w[m.channel@].main[k]) is None);
            }
        } else {
            assert(w.contains_key(m.channel@));
            assert(reply_root(w[m.channel@].main[i]) is None);
        }
    }
    assert forall|r: Seq<char>, i: int| #[trigger] c2.replies.contains_key(r) && 0 <= i < c2.replies[r].len()
        implies reply_root(#[trigger] c2.replies[r][i]) == Some(r) by {
        if reply_root(m) == Some(r) {
            let x = c2.replies[r][i];
            assert(t2.contains(x));
            if x != m {
                assert(t.contains(x));
                let k = choose|k: int| 0 <= k < t.len() && t[k] == x;
                assert(w.contains_key(m.channel@));
                assert(reply_root(w[m.channel@].replies[r][k]) == Some(r));
            }
        } else {
            assert(w.contains_key(m.channel@));
            assert(c2.replies[r] == w[m.channel@].replies[r]);
            assert(reply_root(w[m.channel@].replies[r][i]) == Some(r));
        }
    }
    assert forall|id: Seq<char>| #[trigger] w2.contains_key(id) && id != m.channel@ implies w2[id] == w[id] by {}
}

proof fn lemma_built_by_inserts(ms: Seq<Message>)
    ensures
        ws_wf(ws_insert_all(WorkspaceModel::empty(), ms)),
        ws_placed(ws_insert_all(WorkspaceModel::empty(), ms)),
    decreases ms.len(),
{
    if ms.len() > 0 {
        lemma_built_by_inserts(ms.drop_last());
        let w = ws_insert_all(WorkspaceModel::empty(), ms.drop_last());
        lemma_ws_insert_wf(w, ms.last());
        lemma_ws_insert_placed(w, ms.last());
    }
}

proof fn lemma_chronological_no_duplicates(t: Seq<Message>)
    requires
        chronological(t),
    ensures
        t.no_duplicates(),
        t.reverse().no_duplicates(),
{
    assert forall|i: int, j: int| 0 <= i < t.len() && 0 <= j < t.len() && i != j implies t[i] != t[j] by {
        if i < j {
            assert(ts_before(t[i].ts@, t[j].ts@));
        } else {
            assert(ts_before(t[j].ts@, t[i].ts@));
        }
        crate::timestamp::lemma_ts_irreflexive(t[i].ts@);
    }
    let u = t.reverse();
    assert forall|i: int, j: int| 0 <= i < u.len() && 0 <= j < u.len() && i != j implies u[i] != u[j] by {
        assert(u[i] == t[t.len() - 1 - i]);
        assert(u[j] == t[t.len() - 1 - j]);
    }
}

/// In an index built by inserts, the history of any message lists no message
/// twice: a reply's thread segment and the main-thread segment after it
/// never overlap, and neither repeats itself.
pub proof fn lemma_history_no_repeats(ms: Seq<Message>, m: Message, limit: nat)
    ensures
        ws_history(ws_insert_all(WorkspaceModel::empty(), ms), m, limit) matches Some(h) ==> h.no_duplicates(),
{
    lemma_built_by_inserts(ms);
    let w = ws_insert_all(WorkspaceModel::empty(), ms);
    if w.contains_key(m.channel@) {
        let c = w[m.channel@];
        let main_part = upto(c.main, m.ts@);
        lemma_upto_members(c.main, m.ts@);
        lemma_chronological_no_duplicates(main_part);
        let v = visible(c, m);
        assert(v.no_duplicates()) by {
            match reply_root(m) {
                None => {},
                Some(r) => {
                    let t = owning(c, m);
                    assert(chronological(t)) by {
                        if !c.replies.contains_key(r) {
                            assert(chronological(Seq::<Message>::empty()));
                        }
                    }
                    lemma_upto_members(t, m.ts@);
                    lemma_chronological_no_duplicates(upto(t, m.ts@));
                    lemma_upto_members(c.main, r);
                    lemma_chronological_no_duplicates(upto(c.main, r));
                    let a = upto(t, m.ts@).reverse();
                    let b = upto(c.main, r).reverse();
                    assert forall|i: int, j: int| 0 <= i < a.len() && 0 <= j < b.len() implies a[i] != b[j] by {
                        let ua = upto(t, m.ts@);
                        let ub = upto(c.main, r);
                        assert(a[i] == ua[ua.len() - 1 - i]);
                        assert(ua.contains(a[i]));
                        assert(t.contains(a[i]));
                        let k = choose|k: int| 0 <= k < t.len() && t[k] == a[i];
                        assert(reply_root(t[k]) == Some(r));
                        assert(b[j] == ub[ub.len() - 1 - j]);
                        assert(ub.contains(b[j]));
                        assert(c.main.contains(b[j]));
                        let l = choose|l: int| 0 <= l < c.main.len() && c.main[l] == b[j];
                        assert(reply_root(c.main[l]) is None);
                    }
                    assert forall|i: int, j: int| 0 <= i < v.len() && 0 <= j < v.len() && i != j implies v[i] != v[j] by {
                        if i < a.len() && j < a.len() {
                        } else if i >= a.len() && j >= a.len() {
                            assert(v[i] == b[i - a.len()]);
                            assert(v[j] == b[j - a.len()]);
                        } else if i < a.len() {
                            assert(v[j] == b[j - a.len()]);
                        } else {
                            assert(v[i] == b[i - a.len()]);
                        }
                    }
                },
            }
        }
        let h = at_most(v, limit);
        assert forall|i: int, j: int| 0 <= i < h.len() && 0 <= j < h.len() && i != j implies h[i] != h[j] by {
            assert(h[i] == v[i]);
            assert(h[j] == v[j]);
        }
    }
}

/// The history index of every channel.
#[derive(Debug)]
pub struct Workspace {
    channels: Vec<Keyed<Channel>>,
}

impl View for Workspace {
    type V = WorkspaceModel;

    closed spec fn view(&self) -> WorkspaceModel {
        map_of(self.channels@)
    }
}

impl Workspace {
    pub closed spec fn wf(&self) -> bool {
        &&& keys_unique(self.channels@)
        &&& forall|i: int| 0 <= i < self.channels@.len() ==> (#[trigger] self.channels@[i]).value.wf()
    }

    /// A well-formed workspace has chronological threads.
    pub proof fn lemma_wf(&self)
        requires
            self.wf(),
        ensures
            ws_wf(self@),
    {
        assert forall|id: Seq<char>| #[trigger] self@.contains_key(id) implies channel_wf(self@[id]) by {
            let s = self.channels@;
            let k = choose|k: int| 0 <= k < s.len() && (#[trigger] s[k]).key@ == id;
            lemma_map_at(s, k);
            s[k].value.lemma_wf();
        }
    }

    /// An empty index.
    pub fn new() -> (r: Workspace)
        ensures
            r.wf(),
            r@ == WorkspaceModel::empty(),
    {
        let r = Workspace { channels: Vec::new() };
        assert(r@ =~= WorkspaceModel::empty());
        r
    }

    fn channel(&self, id: &String) -> (r: Option<&Channel>)
        requires
            self.wf(),
        ensures
            match r {
                Some(c) => c.wf() && self@.contains_key(id@) && c@ == self@[id@],
                None => !self@.contains_key(id@),
            },
    {
        match position(&self.channels, id.as_str()) {
            Some(i) => {
                proof {
                    lemma_map_at(self.channels@, i as int);
                }
                Some(&self.channels[i].value)
            },
            None => None,
        }
    }

    /// Adds `msg` to its channel's index. Re-inserting a timestamp that is
    /// already there changes nothing. Returns whether the message is new.
    pub fn insert(&mut self, msg: Arc<Message>) -> (added: bool)
        requires
            old(self).wf(),
        ensures
            final(self).wf(),
            final(self)@ == ws_insert(old(self)@, *msg),
            added == !ws_contains(old(self)@, *msg),
    {
        let id = msg.channel.clone();
        match position(&self.channels, id.as_str()) {
            Some(i) => {
                proof {
                    lemma_map_at(self.channels@, i as int);
                }
                let ghost s = self.channels@;
                let slot = &mut self.channels[i];
                let added = slot.value.insert(msg);
                proof {
                    lemma_map_update(s, i as int, self.channels@[i as int]);
                    assert(self.channels@ =~= s.update(i as int, self.channels@[i as int]));
                    assert forall|k: int| 0 <= k < self.channels@.len() implies (#[trigger] self.channels@[k]).value.wf() by {
                        if k != i {
                            assert(self.channels@[k] == s[k]);
                        }
                    }
                }
                added
            },
            None => {
                let mut channel = Channel::new();
                proof {
                    assert(channel@ == empty_channel());
                }
                let added = channel.insert(msg);
                let ghost s = self.channels@;
                let entry = Keyed { key: id, value: channel };
                proof {
                    lemma_map_insert(s, s.len() as int, entry);
                }
                self.channels.push(entry);
                assert(self.channels@ =~= s.insert(s.len() as int, entry));
                proof {
                    assert forall|k: int| 0 <= k < self.channels@.len() implies (#[trigger] self.channels@[k]).value.wf() by {
                        if k < s.len() {
                            assert(self.channels@[k] == s[k]);
                        }
                    }
                }
                added
            },
        }
    }

    /// Indexes a message of the live stream or of the backfill. Messages that
    /// mention the bot are not indexed. Returns whether the index changed.
    pub fn ingest(&mut self, msg: Arc<Message>) -> (changed: bool)
        requires
            old(self).wf(),
        ensures
            final(self).wf(),
            msg.is_mention ==> final(self)@ == old(self)@ && !changed,
            !msg.is_mention ==> final(self)@ == ws_insert(old(self)@, *msg) && changed == !ws_contains(old(self)@, *msg),
    {
        if msg.is_mention {
            false
        } else {
            self.insert(msg)
        }
    }

    /// Whether `msg` is indexed, in the thread it belongs to.
    pub fn contains(&self, msg: &Message) -> (r: bool)
        requires
            self.wf(),
        ensures
            r == ws_contains(self@, *msg),
    {
        match self.channel(&msg.channel) {
            Some(c) => c.contains(msg),
            None => false,
        }
    }

    /// Up to `limit` messages visible to `msg`, newest first; none where its
    /// channel has not been seen.
    pub fn history(&self, msg: &Message, limit: usize) -> (r: Option<Vec<Arc<Message>>>)
        requires
            self.wf(),
        ensures
            match r {
                Some(v) => ws_history(self@, *msg, limit as nat) == Some(msgs(v@)),
                None => ws_history(self@, *msg, limit as nat) is None,
            },
    {
        match self.channel(&msg.channel) {
            Some(c) => Some(c.history(msg, limit)),
            None => None,
        }
    }

    /// The root message of `msg`'s thread.
    pub fn parent(&self, msg: &Message) -> (r: Option<Arc<Message>>)
        requires
            self.wf(),
        ensures
            match r {
                Some(p) => ws_parent(self@, *msg) == Some(*p),
                None => ws_parent(self@, *msg) is None,
            },
    {
        match self.channel(&msg.channel) {
            Some(c) => c.parent(msg),
            None => None,
        }
    }
}

} // verus!
