//! The chat store: every chat written to any room, in time order, read back
//! by room and day.
use vstd::prelude::*;
use crate::text::views_of;

verus! {

/// One chat: its room, when it was received (milliseconds since the epoch),
/// and what it said.
pub struct ChatRecord {
    pub chatroom_id: i32,
    pub timestamp: i64,
    pub content: String,
}

/// The chats of all rooms, oldest first. Kept in time order: a chat is never
/// stamped earlier than the one received before it.
pub struct Model {
    chats: Vec<ChatRecord>,
}

/// Whether the timestamps of the chats never go down.
pub open spec fn in_time_order(chats: Seq<(int, int, Seq<char>)>) -> bool {
    forall|i: int, j: int| 0 <= i < j < chats.len() ==> chats[i].1 <= chats[j].1
}

/// The timestamp a chat received at `now` gets: `now`, or the last chat's
/// timestamp where the clock has stepped back behind it.
pub open spec fn stamp_after(chats: Seq<(int, int, Seq<char>)>, now: int) -> int {
    if chats.len() > 0 && chats.last().1 > now {
        chats.last().1
    } else {
        now
    }
}

/// The chats of room `chatroom_id` stamped at or after `since`, in order.
pub open spec fn records_since(chats: Seq<(int, int, Seq<char>)>, chatroom_id: int, since: int) -> Seq<
    (int, int, Seq<char>),
>
    decreases chats.len(),
{
    if chats.len() == 0 {
        Seq::empty()
    } else {
        let rest = records_since(chats.drop_last(), chatroom_id, since);
        let c = chats.last();
        if c.0 == chatroom_id && c.1 >= since {
            rest.push(c)
        } else {
            rest
        }
    }
}

/// The contents of the chats of room `chatroom_id` stamped at or after
/// `since`, in time order.
pub open spec fn chats_since(chats: Seq<(int, int, Seq<char>)>, chatroom_id: int, since: int) -> Seq<
    Seq<char>,
> {
    records_since(chats, chatroom_id, since).map_values(|c: (int, int, Seq<char>)| c.2)
}

/// The chats read from a store in time order are in time order, and each is
/// one of the store's.
pub proof fn lemma_records_since(chats: Seq<(int, int, Seq<char>)>, chatroom_id: int, since: int)
    requires
        in_time_order(chats),
    ensures
        in_time_order(records_since(chats, chatroom_id, since)),
        forall|k: int| 0 <= k < records_since(chats, chatroom_id, since).len() ==> exists|i: int|
            0 <= i < chats.len() && chats[i] == #[trigger] records_since(chats, chatroom_id, since)[k],
    decreases chats.len(),
{
    if chats.len() > 0 {
        let init = chats.drop_last();
        assert(in_time_order(init));
        lemma_records_since(init, chatroom_id, since);
        let rest = records_since(init, chatroom_id, since);
        let r = records_since(chats, chatroom_id, since);
        assert forall|k: int| 0 <= k < rest.len() implies exists|i: int|
            0 <= i < chats.len() && chats[i] == #[trigger] rest[k] by {
            let i = choose|i: int| 0 <= i < init.len() && init[i] == rest[k];
            assert(chats[i] == init[i]);
        }
        assert forall|k: int| 0 <= k < r.len() implies exists|i: int|
            0 <= i < chats.len() && chats[i] == #[trigger] r[k] by {
            if k < rest.len() {
                assert(r[k] == rest[k]);
            } else {
                assert(chats[chats.len() - 1] == r[k]);
            }
        }
        assert forall|a: int, b: int| 0 <= a < b < r.len() implies r[a].1 <= r[b].1 by {
            if b == rest.len() {
                let i = choose|i: int| 0 <= i < chats.len() && chats[i] == rest[a];
                assert(r[a] == rest[a]);
                assert(i <= chats.len() - 1);
                if i < chats.len() - 1 {
                    assert(chats[i].1 <= chats[chats.len() - 1].1);
                }
            } else {
                assert(r[a] == rest[a] && r[b] == rest[b]);
            }
        }
    }
}

impl Model {
    /// Each chat as (room, timestamp, content), oldest first.
    pub closed spec fn chats(&self) -> Seq<(int, int, Seq<char>)> {
        self.chats@.map_values(|c: ChatRecord| (c.chatroom_id as int, c.timestamp as int, c.content@))
    }

    /// An empty store.
    pub fn new() -> (r: Model)
        ensures
            r.chats() == Seq::<(int, int, Seq<char>)>::empty(),
            in_time_order(r.chats()),
    {
        let r = Model { chats: Vec::new() };
        assert(r.chats() =~= Seq::<(int, int, Seq<char>)>::empty());
        r
    }

    /// Appends a chat of room `chatroom_id`, received at `now`, stamped no
    /// earlier than the chat before it.
    pub fn insert_chat(&mut self, chatroom_id: i32, content: &str, now: i64)
        requires
            in_time_order(old(self).chats()),
        ensures
            final(self).chats() == old(self).chats().push(
                (chatroom_id as int, stamp_after(old(self).chats(), now as int), content@),
            ),
            in_time_order(final(self).chats()),
    {
        let n = self.chats.len();
        let stamp = if n > 0 && self.chats[n - 1].timestamp > now {
            self.chats[n - 1].timestamp
        } else {
            now
        };
        assert(n > 0 ==> self.chats()[n - 1] == self.chats().last());
        self.chats.push(ChatRecord { chatroom_id, timestamp: stamp, content: content.to_owned() });
        assert(self.chats() =~= old(self).chats().push(
            (chatroom_id as int, stamp_after(old(self).chats(), now as int), content@),
        ));
    }

    /// The contents of the chats of room `chatroom_id` stamped since the
    /// local day began at `day_start`, in time order.
    pub fn get_chats_from_today(&self, chatroom_id: i32, day_start: i64) -> (r: Vec<String>)
        requires
            in_time_order(self.chats()),
        ensures
            views_of(r@) == chats_since(self.chats(), chatroom_id as int, day_start as int),
            in_time_order(records_since(self.chats(), chatroom_id as int, day_start as int)),
    {
        proof {
            lemma_records_since(self.chats(), chatroom_id as int, day_start as int);
        }
        let mut out: Vec<String> = Vec::new();
        let mut i: usize = 0;
        assert(views_of(out@) =~= chats_since(self.chats().subrange(0, 0), chatroom_id as int, day_start as int));
        while i < self.chats.len()
            invariant
                i <= self.chats@.len(),
                views_of(out@) == chats_since(
                    self.chats().subrange(0, i as int),
                    chatroom_id as int,
                    day_start as int,
                ),
            decreases self.chats@.len() - i,
        {
            let ghost pre = self.chats().subrange(0, i as int);
            let ghost post = self.chats().subrange(0, i + 1);
            assert(post.drop_last() =~= pre);
            let c = &self.chats[i];
            if c.chatroom_id == chatroom_id && c.timestamp >= day_start {
                out.push(c.content.clone());
                assert(chats_since(post, chatroom_id as int, day_start as int) =~= chats_since(
                    pre, chatroom_id as int, day_start as int).push(c.content@));
            } else {
                assert(chats_since(post, chatroom_id as int, day_start as int) =~= chats_since(
                    pre, chatroom_id as int, day_start as int));
            }
            i = i + 1;
        }
        assert(self.chats().subrange(0, i as int) =~= self.chats());
        out
    }
}

} // verus!
