//! Chat messages, and the rule that places a message in a thread.

use std::sync::Arc;
use vstd::prelude::*;
use vstd::string::*;

verus! {

/// A message as the platform reports it. Immutable once observed.
#[derive(Clone, Debug)]
pub struct Message {
    pub text: String,
    /// Id of the author.
    pub user: String,
    /// Server-assigned timestamp: unique within a channel, and the message's identity.
    pub ts: String,
    /// Timestamp of the thread's root, for a message that sits in a thread.
    pub thread_ts: Option<String>,
    pub reply_count: u32,
    pub channel: String,
    /// Whether the text mentions the bot.
    pub is_mention: bool,
}

/// Root timestamp of the reply thread that `m` belongs to. A message without a
/// thread parent, or that is itself a thread root, belongs to the main thread.
pub open spec fn reply_root(m: Message) -> Option<Seq<char>> {
    match m.thread_ts {
        Some(root) => if root@ == m.ts@ {
            None
        } else {
            Some(root@)
        },
        None => None,
    }
}

/// The messages behind a sequence of shared handles.
pub open spec fn msgs(v: Seq<Arc<Message>>) -> Seq<Message> {
    v.map_values(|a: Arc<Message>| *a)
}

/// Relies on `Arc::clone`: the new handle points to the same allocation, so
/// to the same message.
#[verifier::external_body]
pub(crate) fn share(a: &Arc<Message>) -> (r: Arc<Message>)
    ensures
        *r == **a,
{
    Arc::clone(a)
}

/// `pat` occurs in `s` as a contiguous run of characters.
pub open spec fn occurs(s: Seq<char>, pat: Seq<char>) -> bool {
    exists|i: int| 0 <= i && i + pat.len() <= s.len() && #[trigger] s.subrange(i, i + pat.len()) == pat
}

/// Relies on `str::contains` with a string pattern: whether `pat` occurs in
/// `s`. UTF-8 matches fall on character boundaries, so a byte match is a
/// character match.
#[verifier::external_body]
fn contains_str(s: &str, pat: &str) -> (r: bool)
    ensures
        r == occurs(s@, pat@),
{
    s.contains(pat)
}

/// `m` as the live stream hands it on: marked as a mention where its text
/// holds the bot's user id.
pub open spec fn marked(m: Message, bot_user_id: Seq<char>) -> Message {
    Message { is_mention: m.is_mention || occurs(m.text@, bot_user_id), ..m }
}

/// A message event of the live stream, as it is passed on: marked as a
/// mention where its text holds the bot's user id, and dropped where its
/// text is empty.
pub fn accept_event(msg: Message, bot_user_id: &String) -> (r: Option<Message>)
    ensures
        r is None <==> msg.text@.len() == 0,
        r matches Some(m) ==> m == marked(msg, bot_user_id@),
{
    let mut msg = msg;
    if contains_str(msg.text.as_str(), bot_user_id.as_str()) {
        msg.is_mention = true;
    }
    if msg.text.as_str().is_empty() {
        None
    } else {
        Some(msg)
    }
}

/// `b` is `a` posted in channel `channel`.
pub open spec fn in_channel(a: Message, b: Message, channel: Seq<char>) -> bool {
    &&& b.channel@ == channel
    &&& b.text == a.text
    &&& b.user == a.user
    &&& b.ts == a.ts
    &&& b.thread_ts == a.thread_ts
    &&& b.reply_count == a.reply_count
    &&& b.is_mention == a.is_mention
}

/// Stamps messages fetched from a channel's history with that channel's id,
/// which the history endpoints leave out.
pub fn with_channel(messages: Vec<Message>, channel: &str) -> (r: Vec<Message>)
    ensures
        r@.len() == messages@.len(),
        forall|i: int| 0 <= i < r@.len() ==> in_channel(messages@[i], #[trigger] r@[i], channel@),
{
    let ghost src = messages@;
    let mut out: Vec<Message> = Vec::new();
    for m in it: messages
        invariant
            src == it.seq(),
            out@.len() == it.index(),
            forall|i: int| 0 <= i < out@.len() ==> in_channel(src[i], #[trigger] out@[i], channel@),
    {
        let mut m = m;
        m.channel = channel.to_owned();
        out.push(m);
    }
    out
}

/// The thread that backfill fetches for a message of a channel's history:
/// the one it roots or sits in, if any.
pub fn thread_to_fetch(msg: &Message) -> (r: Option<String>)
    ensures
        match r {
            Some(root) => msg.thread_ts is Some && root@ == msg.thread_ts->0@,
            None => msg.thread_ts is None,
        },
{
    match &msg.thread_ts {
        Some(root) => Some(root.clone()),
        None => None,
    }
}

/// What the platform's API answered: its payload where it reports success
/// with one, its error text where it reports failure with one, and else a
/// note that the answer had an unexpected shape, with the answer itself.
pub fn api_result<T>(ok: bool, error: Option<String>, payload: Option<T>, body: &str) -> (r: Result<T, String>)
    ensures
        ok && payload is Some ==> r == Ok::<T, String>(payload->0),
        !ok && error is Some ==> r is Err && r->Err_0@ == error->0@,
        !(ok && payload is Some) && !(!ok && error is Some) ==> r is Err && r->Err_0@ =~= "unexpected format: "@ + body@,
{
    if ok {
        if let Some(t) = payload {
            return Ok(t);
        }
    } else if let Some(e) = error {
        return Err(e);
    }
    let mut note = "unexpected format: ".to_owned();
    note.append(body);
    Err(note)
}

impl Message {
    /// Root timestamp of the reply thread this message belongs to, if any.
    pub fn reply_root(&self) -> (r: Option<&String>)
        ensures
            match r {
                Some(root) => reply_root(*self) == Some(root@),
                None => reply_root(*self) is None,
            },
    {
        match &self.thread_ts {
            Some(root) => if *root == self.ts {
                None
            } else {
                Some(root)
            },
            None => None,
        }
    }
}

} // verus!
