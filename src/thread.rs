//! A thread: messages that share one root, kept in chronological order.

use crate::message::{msgs, share, Message};
use crate::timestamp::{compare_ts, lemma_ts_irreflexive, lemma_ts_total, lemma_ts_transitive, ts_before};
use core::cmp::Ordering;
use std::sync::Arc;
use vstd::prelude::*;

verus! {

/// Strictly increasing timestamps: chronological, and no timestamp twice.
pub open spec fn chronological(t: Seq<Message>) -> bool {
    forall|i: int, j: int| 0 <= i < j < t.len() ==> ts_before(#[trigger] t[i].ts@, #[trigger] t[j].ts@)
}

/// Some entry of `t` has timestamp `ts`.
pub open spec fn has_ts(t: Seq<Message>, ts: Seq<char>) -> bool {
    exists|i: int| 0 <= i < t.len() && #[trigger] t[i].ts@ == ts
}

/// The entry of `t` with timestamp `ts`, if there is one.
pub open spec fn entry(t: Seq<Message>, ts: Seq<char>) -> Option<Message> {
    if has_ts(t, ts) {
        Some(t[choose|i: int| 0 <= i < t.len() && #[trigger] t[i].ts@ == ts])
    } else {
        None
    }
}

/// Where a message with timestamp `ts` goes in chronological `t`: after the
/// last entry that is earlier than it.
pub open spec fn rank(t: Seq<Message>, ts: Seq<char>) -> nat
    decreases t.len(),
{
    if t.len() == 0 {
        0
    } else if ts_before(t.last().ts@, ts) {
        t.len()
    } else {
        rank(t.drop_last(), ts)
    }
}

/// The entries of chronological `t` at or before `ts`, oldest first.
pub open spec fn upto(t: Seq<Message>, ts: Seq<char>) -> Seq<Message>
    decreases t.len(),
{
    if t.len() == 0 {
        t
    } else if ts_before(ts, t.last().ts@) {
        upto(t.drop_last(), ts)
    } else {
        t
    }
}

/// `t` after inserting `m`: unchanged where its timestamp is already present.
pub open spec fn thread_insert(t: Seq<Message>, m: Message) -> Seq<Message> {
    if has_ts(t, m.ts@) {
        t
    } else {
        t.insert(rank(t, m.ts@) as int, m)
    }
}

/// At most the first `n` items of `s`.
pub open spec fn at_most<A>(s: Seq<A>, n: nat) -> Seq<A> {
    if n < s.len() {
        s.take(n as int)
    } else {
        s
    }
}

/// Up to `limit` entries of `t` at or before `ts`, newest first.
pub open spec fn window(t: Seq<Message>, ts: Seq<char>, limit: nat) -> Seq<Message> {
    at_most(upto(t, ts).reverse(), limit)
}

/// In chronological order, `p` splits the entries earlier than `ts` from the rest.
proof fn lemma_rank_at_split(t: Seq<Message>, ts: Seq<char>, p: int)
    requires
        0 <= p <= t.len(),
        forall|i: int| 0 <= i < p ==> ts_before(#[trigger] t[i].ts@, ts),
        forall|i: int| p <= i < t.len() ==> !ts_before(#[trigger] t[i].ts@, ts),
    ensures
        rank(t, ts) == p,
    decreases t.len(),
{
    if t.len() > 0 && p < t.len() {
        let s = t.drop_last();
        assert forall|i: int| p <= i < s.len() implies !ts_before(#[trigger] s[i].ts@, ts) by {
            assert(s[i] == t[i]);
        }
        assert forall|i: int| 0 <= i < p implies ts_before(#[trigger] s[i].ts@, ts) by {
            assert(s[i] == t[i]);
        }
        lemma_rank_at_split(s, ts, p);
    }
}

/// In chronological order, `q` splits the entries at or before `ts` from the later ones.
proof fn lemma_upto_at_split(t: Seq<Message>, ts: Seq<char>, q: int)
    requires
        0 <= q <= t.len(),
        forall|i: int| 0 <= i < q ==> !ts_before(ts, #[trigger] t[i].ts@),
        forall|i: int| q <= i < t.len() ==> ts_before(ts, #[trigger] t[i].ts@),
    ensures
        upto(t, ts) == t.take(q),
    decreases t.len(),
{
    if t.len() > 0 && q < t.len() {
        let s = t.drop_last();
        assert forall|i: int| q <= i < s.len() implies ts_before(ts, #[trigger] s[i].ts@) by {
            assert(s[i] == t[i]);
        }
        assert forall|i: int| 0 <= i < q implies !ts_before(ts, #[trigger] s[i].ts@) by {
            assert(s[i] == t[i]);
        }
        lemma_upto_at_split(s, ts, q);
        assert(s.take(q) =~= t.take(q));
    } else {
        assert(t.take(q) =~= t);
    }
}

/// The entries of a chronological thread that are not later than `ts`.
pub proof fn lemma_upto_members(t: Seq<Message>, ts: Seq<char>)
    requires
        chronological(t),
    ensures
        chronological(upto(t, ts)),
        exists|q: int| 0 <= q <= t.len() && upto(t, ts) == t.take(q),
        forall|m: Message| upto(t, ts).contains(m) <==> (t.contains(m) && !ts_before(ts, m.ts@)),
    decreases t.len(),
{
    if t.len() == 0 {
        assert(t.take(0) =~= t);
    } else if ts_before(ts, t.last().ts@) {
        let s = t.drop_last();
        lemma_upto_members(s, ts);
        let q = choose|q: int| 0 <= q <= s.len() && upto(s, ts) == s.take(q);
        assert(s.take(q) =~= t.take(q));
        assert forall|m: Message| upto(t, ts).contains(m) <==> (t.contains(m) && !ts_before(ts, m.ts@)) by {
            if t.contains(m) && !ts_before(ts, m.ts@) {
                let k = choose|k: int| 0 <= k < t.len() && t[k] == m;
                if k == t.len() - 1 {
                    assert(false);
                }
                assert(s[k] == m);
            }
            if s.contains(m) {
                let k = choose|k: int| 0 <= k < s.len() && s[k] == m;
                assert(t[k] == m);
            }
        }
    } else {
        assert(t.take(t.len() as int) =~= t);
        assert forall|m: Message| t.contains(m) implies !ts_before(ts, m.ts@) by {
            let k = choose|k: int| 0 <= k < t.len() && t[k] == m;
            if k < t.len() - 1 && ts_before(ts, m.ts@) {
                lemma_ts_transitive(ts, m.ts@, t.last().ts@);
            }
        }
    }
}

/// In chronological order, `rank` splits the entries earlier than `ts` from the rest.
pub proof fn lemma_rank_splits(t: Seq<Message>, ts: Seq<char>)
    requires
        chronological(t),
    ensures
        rank(t, ts) <= t.len(),
        forall|i: int| 0 <= i < rank(t, ts) ==> ts_before(#[trigger] t[i].ts@, ts),
        forall|i: int| rank(t, ts) <= i < t.len() ==> !ts_before(#[trigger] t[i].ts@, ts),
    decreases t.len(),
{
    if t.len() > 0 {
        let s = t.drop_last();
        lemma_rank_splits(s, ts);
        if ts_before(t.last().ts@, ts) {
            assert forall|i: int| 0 <= i < t.len() implies ts_before(#[trigger] t[i].ts@, ts) by {
                if i < t.len() - 1 {
                    lemma_ts_transitive(t[i].ts@, t.last().ts@, ts);
                }
            }
        } else {
            assert forall|i: int| rank(t, ts) <= i < t.len() implies !ts_before(#[trigger] t[i].ts@, ts) by {
                if i < t.len() - 1 {
                    assert(s[i] == t[i]);
                }
            }
            assert forall|i: int| 0 <= i < rank(t, ts) implies ts_before(#[trigger] t[i].ts@, ts) by {
                assert(s[i] == t[i]);
            }
        }
    }
}

/// Inserting keeps a thread chronological, and adds `m` exactly where its
/// timestamp was missing.
pub proof fn lemma_thread_insert(t: Seq<Message>, m: Message)
    requires
        chronological(t),
    ensures
        chronological(thread_insert(t, m)),
        has_ts(thread_insert(t, m), m.ts@),
        !has_ts(t, m.ts@) ==> thread_insert(t, m).len() == t.len() + 1,
        forall|x: Message| #[trigger] thread_insert(t, m).contains(x) <==> (t.contains(x) || (x == m && !has_ts(t, m.ts@))),
{
    if !has_ts(t, m.ts@) {
        lemma_rank_splits(t, m.ts@);
        let p = rank(t, m.ts@) as int;
        let n = t.insert(p, m);
        assert forall|i: int| p <= i < t.len() implies ts_before(m.ts@, #[trigger] t[i].ts@) by {
            lemma_ts_total(m.ts@, t[i].ts@);
        }
        assert forall|i: int, j: int| 0 <= i < j < n.len() implies ts_before(#[trigger] n[i].ts@, #[trigger] n[j].ts@) by {
            if i < p && j > p {
                lemma_ts_transitive(n[i].ts@, m.ts@, n[j].ts@);
            }
        }
        assert(n[p] == m);
        assert forall|x: Message| #[trigger] n.contains(x) <==> (t.contains(x) || x == m) by {
            if n.contains(x) {
                let k = choose|k: int| 0 <= k < n.len() && n[k] == x;
                if k < p {
                    assert(t[k] == x);
                } else if k > p {
                    assert(t[k - 1] == x);
                }
            }
            if t.contains(x) {
                let k = choose|k: int| 0 <= k < t.len() && t[k] == x;
                if k < p {
                    assert(n[k] == x);
                } else {
                    assert(n[k + 1] == x);
                }
            }
        }
    }
}

/// The entries of a chronological thread at or before `ts`, newest first:
/// strictly decreasing, and exactly the thread's entries not later than `ts`.
pub proof fn lemma_newest_first(t: Seq<Message>, ts: Seq<char>)
    requires
        chronological(t),
    ensures
        forall|i: int, j: int|
            0 <= i < j < upto(t, ts).reverse().len() ==> ts_before(
                #[trigger] upto(t, ts).reverse()[j].ts@,
                #[trigger] upto(t, ts).reverse()[i].ts@,
            ),
        forall|x: Message| #[trigger] upto(t, ts).reverse().contains(x) <==> (t.contains(x) && !ts_before(ts, x.ts@)),
{
    lemma_upto_members(t, ts);
    let u = upto(t, ts);
    let h = u.reverse();
    assert forall|i: int, j: int| 0 <= i < j < h.len() implies ts_before(#[trigger] h[j].ts@, #[trigger] h[i].ts@) by {
        assert(h[j] == u[u.len() - 1 - j]);
        assert(h[i] == u[u.len() - 1 - i]);
    }
    assert forall|x: Message| #[trigger] h.contains(x) <==> (t.contains(x) && !ts_before(ts, x.ts@)) by {
        if h.contains(x) {
            let k = choose|k: int| 0 <= k < h.len() && h[k] == x;
            assert(u[u.len() - 1 - k] == x);
        }
        if u.contains(x) {
            let k = choose|k: int| 0 <= k < u.len() && u[k] == x;
            assert(h[u.len() - 1 - k] == x);
        }
    }
}

/// No two of `ms` share a timestamp.
pub open spec fn distinct_ts(ms: Seq<Message>) -> bool {
    forall|i: int, j: int| 0 <= i < j < ms.len() ==> (#[trigger] ms[i]).ts@ != (#[trigger] ms[j]).ts@
}

/// `t` after inserting each of `ms`, in order.
pub open spec fn thread_insert_all(t: Seq<Message>, ms: Seq<Message>) -> Seq<Message>
    decreases ms.len(),
{
    if ms.len() == 0 {
        t
    } else {
        thread_insert(thread_insert_all(t, ms.drop_last()), ms.last())
    }
}

proof fn lemma_thread_after_inserts(ms: Seq<Message>)
    requires
        distinct_ts(ms),
    ensures
        chronological(thread_insert_all(Seq::empty(), ms)),
        forall|x: Message| #[trigger] thread_insert_all(Seq::empty(), ms).contains(x) <==> ms.contains(x),
    decreases ms.len(),
{
    if ms.len() > 0 {
        let rest = ms.drop_last();
        let m = ms.last();
        assert(distinct_ts(rest)) by {
            assert forall|i: int, j: int| 0 <= i < j < rest.len() implies (#[trigger] rest[i]).ts@ != (#[trigger] rest[j]).ts@ by {
                assert(rest[i] == ms[i] && rest[j] == ms[j]);
            }
        }
        lemma_thread_after_inserts(rest);
        let t = thread_insert_all(Seq::empty(), rest);
        assert(!has_ts(t, m.ts@)) by {
            if has_ts(t, m.ts@) {
                let k = choose|k: int| 0 <= k < t.len() && #[trigger] t[k].ts@ == m.ts@;
                assert(t.contains(t[k]));
                let j = choose|j: int| 0 <= j < rest.len() && rest[j] == t[k];
                assert(ms[j] == rest[j]);
                assert(ms[j].ts@ != ms[ms.len() - 1].ts@);
            }
        }
        lemma_thread_insert(t, m);
        assert forall|x: Message| ms.contains(x) <==> (rest.contains(x) || x == m) by {
            if ms.contains(x) {
                let k = choose|k: int| 0 <= k < ms.len() && ms[k] == x;
                if k < rest.len() {
                    assert(rest[k] == x);
                }
            }
            if rest.contains(x) {
                let k = choose|k: int| 0 <= k < rest.len() && rest[k] == x;
                assert(ms[k] == x);
            }
            assert(ms[ms.len() - 1] == m);
        }
    }
}

/// The window at the latest of `ms`, in a chronological thread that holds
/// exactly `ms`: a prefix of the inserted messages not later than it, newest
/// first, strictly decreasing, and starting with it.
pub proof fn lemma_latest_window(t: Seq<Message>, ms: Seq<Message>, limit: nat)
    requires
        ms.len() > 0,
        chronological(t),
        forall|x: Message| #[trigger] t.contains(x) <==> ms.contains(x),
    ensures
        window(t, ms.last().ts@, limit) == at_most(upto(t, ms.last().ts@).reverse(), limit),
        forall|i: int, j: int|
            0 <= i < j < upto(t, ms.last().ts@).reverse().len() ==> ts_before(
                #[trigger] upto(t, ms.last().ts@).reverse()[j].ts@,
                #[trigger] upto(t, ms.last().ts@).reverse()[i].ts@,
            ),
        forall|x: Message|
            #[trigger] upto(t, ms.last().ts@).reverse().contains(x) <==> (ms.contains(x) && !ts_before(ms.last().ts@, x.ts@)),
        limit > 0 ==> window(t, ms.last().ts@, limit)[0] == ms.last(),
{
    let m = ms.last();
    assert(ms.contains(m)) by {
        assert(ms[ms.len() - 1] == m);
    }
    lemma_upto_members(t, m.ts@);
    lemma_newest_first(t, m.ts@);
    let u = upto(t, m.ts@);
    let h = u.reverse();
    assert forall|x: Message| #[trigger] h.contains(x) <==> u.contains(x) by {
        assert(h.contains(x) == (t.contains(x) && !ts_before(m.ts@, x.ts@)));
    }
    lemma_ts_irreflexive(m.ts@);
    assert(t.contains(m));
    assert(u.contains(m));
    assert forall|x: Message| #[trigger] h.contains(x) <==> (ms.contains(x) && !ts_before(m.ts@, x.ts@)) by {
        assert(h.contains(x) == u.contains(x));
        assert(u.contains(x) == (t.contains(x) && !ts_before(m.ts@, x.ts@)));
        assert(t.contains(x) == ms.contains(x));
    }
    if limit > 0 {
        let k = choose|k: int| 0 <= k < u.len() && u[k] == m;
        let n = u.len() - 1;
        if k < n {
            assert(ts_before(u[k].ts@, u[n].ts@));
            assert(h[0] == u[n]);
            assert(h.contains(h[0]));
            assert(!ts_before(m.ts@, h[0].ts@));
        }
        assert(u[n] == m);
        assert(h[0] == u[n]);
        assert(at_most(h, limit)[0] == h[0]);
    }
}

/// Inserting messages with distinct timestamps into a thread, then asking
/// for the window at the last one inserted, gives the inserted messages not
/// later than it, newest first, strictly decreasing, starting with it, and
/// cut at the limit.
pub proof fn lemma_thread_history_of_latest(ms: Seq<Message>, limit: nat)
    requires
        ms.len() > 0,
        distinct_ts(ms),
    ensures
        window(thread_insert_all(Seq::empty(), ms), ms.last().ts@, limit) == at_most(
            upto(thread_insert_all(Seq::empty(), ms), ms.last().ts@).reverse(),
            limit,
        ),
        forall|i: int, j: int|
            0 <= i < j < upto(thread_insert_all(Seq::empty(), ms), ms.last().ts@).reverse().len() ==> ts_before(
                #[trigger] upto(thread_insert_all(Seq::empty(), ms), ms.last().ts@).reverse()[j].ts@,
                #[trigger] upto(thread_insert_all(Seq::empty(), ms), ms.last().ts@).reverse()[i].ts@,
            ),
        forall|x: Message|
            #[trigger] upto(thread_insert_all(Seq::empty(), ms), ms.last().ts@).reverse().contains(x) <==> (ms.contains(x)
                && !ts_before(ms.last().ts@, x.ts@)),
        limit > 0 ==> window(thread_insert_all(Seq::empty(), ms), ms.last().ts@, limit)[0] == ms.last(),
{
    lemma_thread_after_inserts(ms);
    lemma_latest_window(thread_insert_all(Seq::empty(), ms), ms, limit);
}

/// A thread: its messages in strictly increasing timestamp order.
#[derive(Debug)]
pub struct Thread {
    thread: Vec<Arc<Message>>,
}

impl View for Thread {
    type V = Seq<Message>;

    closed spec fn view(&self) -> Seq<Message> {
        msgs(self.thread@)
    }
}

impl Thread {
    pub open spec fn wf(&self) -> bool {
        chronological(self@)
    }

    pub fn new() -> (r: Thread)
        ensures
            r.wf(),
            r@ == Seq::<Message>::empty(),
    {
        Thread { thread: Vec::new() }
    }

    /// Binary search for `ts`: `Ok` with its position, or `Err` with the
    /// position where it would be inserted.
    pub fn find(&self, ts: &str) -> (r: Result<usize, usize>)
        requires
            self.wf(),
        ensures
            r is Ok <==> has_ts(self@, ts@),
            match r {
                Ok(i) => i < self@.len() && self@[i as int].ts@ == ts@,
                Err(p) => {
                    &&& p <= self@.len()
                    &&& forall|i: int| 0 <= i < p ==> ts_before(#[trigger] self@[i].ts@, ts@)
                    &&& forall|i: int| p <= i < self@.len() ==> ts_before(ts@, #[trigger] self@[i].ts@)
                },
            },
    {
        let ghost t = self@;
        let mut lo: usize = 0;
        let mut hi: usize = self.thread.len();
        while lo < hi
            invariant
                t == self@,
                chronological(t),
                t.len() == self.thread@.len(),
                lo <= hi <= t.len(),
                forall|i: int| 0 <= i < lo ==> ts_before(#[trigger] t[i].ts@, ts@),
                forall|i: int| hi <= i < t.len() ==> ts_before(ts@, #[trigger] t[i].ts@),
            decreases hi - lo,
        {
            let mid = lo + (hi - lo) / 2;
            let entry: &Message = &self.thread[mid];
            assert(*entry == t[mid as int]);
            match compare_ts(entry.ts.as_str(), ts) {
                Ordering::Less => {
                    assert forall|i: int| 0 <= i < mid + 1 implies ts_before(#[trigger] t[i].ts@, ts@) by {
                        if i < mid {
                            lemma_ts_transitive(t[i].ts@, t[mid as int].ts@, ts@);
                        }
                    }
                    lo = mid + 1;
                },
                Ordering::Greater => {
                    assert forall|i: int| mid <= i < t.len() implies ts_before(ts@, #[trigger] t[i].ts@) by {
                        if i > mid {
                            lemma_ts_transitive(ts@, t[mid as int].ts@, t[i].ts@);
                        }
                    }
                    hi = mid;
                },
                Ordering::Equal => {
                    return Ok(mid);
                },
            }
        }
        proof {
            // an entry with this timestamp would be both before and after it
            if has_ts(t, ts@) {
                let k = choose|k: int| 0 <= k < t.len() && #[trigger] t[k].ts@ == ts@;
                assert(t[k].ts@ == ts@);
                lemma_ts_irreflexive(ts@);
            }
        }
        Err(lo)
    }

    /// Whether an entry has timestamp `ts`.
    pub fn contains(&self, ts: &str) -> (r: bool)
        requires
            self.wf(),
        ensures
            r == has_ts(self@, ts@),
    {
        self.find(ts).is_ok()
    }

    /// The entry with timestamp `ts`, if any.
    pub fn get(&self, ts: &str) -> (r: Option<Arc<Message>>)
        requires
            self.wf(),
        ensures
            r is Some <==> has_ts(self@, ts@),
            match r {
                Some(m) => entry(self@, ts@) == Some(*m),
                None => entry(self@, ts@) is None,
            },
    {
        match self.find(ts) {
            Ok(i) => {
                proof {
                    let t = self@;
                    let k = choose|k: int| 0 <= k < t.len() && #[trigger] t[k].ts@ == ts@;
                    if k != i {
                        lemma_ts_irreflexive(ts@);
                    }
                }
                Some(share(&self.thread[i]))
            },
            Err(_) => None,
        }
    }

    /// Adds `msg` in its place, unless an entry already has its timestamp.
    /// Returns whether it was added.
    pub fn insert(&mut self, msg: Arc<Message>) -> (added: bool)
        requires
            old(self).wf(),
        ensures
            final(self).wf(),
            final(self)@ == thread_insert(old(self)@, *msg),
            added == !has_ts(old(self)@, msg.ts@),
    {
        let ghost t = self@;
        match self.find(msg.ts.as_str()) {
            Ok(_) => false,
            Err(p) => {
                proof {
                    assert forall|i: int| p <= i < t.len() implies !ts_before(#[trigger] t[i].ts@, msg.ts@) by {
                        lemma_ts_total(msg.ts@, t[i].ts@);
                    }
                    lemma_rank_at_split(t, msg.ts@, p as int);
                }
                self.thread.insert(p, msg);
                proof {
                    let n = self@;
                    let m = n[p as int];
                    assert(n =~= t.insert(p as int, m));
                    assert forall|i: int, j: int| 0 <= i < j < n.len() implies ts_before(#[trigger] n[i].ts@, #[trigger] n[j].ts@) by {
                        if i < p && j > p {
                            lemma_ts_transitive(n[i].ts@, m.ts@, n[j].ts@);
                        }
                    }
                }
                true
            },
        }
    }

    /// Up to `limit` entries at or before `ts`, newest first.
    pub fn history(&self, ts: &str, limit: usize) -> (r: Vec<Arc<Message>>)
        requires
            self.wf(),
        ensures
            msgs(r@) == window(self@, ts@, limit as nat),
    {
        let ghost t = self@;
        let n = self.thread.len();
        assert(t.len() == n);
        let q = match self.find(ts) {
            Ok(i) => i + 1,
            Err(p) => p,
        };
        proof {
            assert forall|i: int| 0 <= i < q implies !ts_before(ts@, #[trigger] t[i].ts@) by {
                lemma_ts_total(ts@, t[i].ts@);
                if i == q - 1 {
                    lemma_ts_irreflexive(ts@);
                }
            }
            assert forall|i: int| q <= i < t.len() implies ts_before(ts@, #[trigger] t[i].ts@) by {
                if q > 0 && t[q - 1].ts@ == ts@ {
                    assert(ts_before(t[q - 1].ts@, t[i].ts@));
                }
            }
            lemma_upto_at_split(t, ts@, q as int);
        }
        let ghost want = t.take(q as int).reverse();
        let mut out: Vec<Arc<Message>> = Vec::new();
        let mut k: usize = q;
        while k > 0 && out.len() < limit
            invariant
                t == self@,
                t.len() == self.thread@.len(),
                k <= q <= t.len(),
                want == t.take(q as int).reverse(),
                out@.len() == q - k,
                q - k <= limit,
                want.len() == q,
                msgs(out@) =~= want.take(q - k),
            decreases k,
        {
            k = k - 1;
            out.push(share(&self.thread[k]));
            assert(want[q - k - 1] == t[k as int]);
            assert(msgs(out@) =~= want.take(q - k));
        }
        proof {
            if k == 0 {
                assert(want.take(q - k) =~= want);
            }
            assert(upto(t, ts@).reverse() == want);
        }
        out
    }
}

} // verus!
