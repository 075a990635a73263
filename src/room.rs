//! A chatroom: its members and the fan-out of frames to them, with
//! departures cascading from failed sends.
use vstd::prelude::*;
use crate::store::{chats_since, in_time_order, stamp_after, Model};
use crate::wire::{ServerMessageView, ServerToClientMessage};

verus! {

/// An event in a room's mailbox. The socket that `Connect` hands over stays
/// with the host; the room keeps the user's id.
pub enum ClientToServerEvent {
    NewMessage(String),
    ChatsFromTodayRequest,
    Connect { user_id: i32 },
    Disconnect { user_id: i32 },
}

/// A frame for the host to send, to each of the given users.
pub struct Delivery {
    pub recipients: Vec<i32>,
    pub message: ServerToClientMessage,
}

/// The state of one chatroom, owned by a single task that feeds it its
/// mailbox's events one at a time.
///
/// Handling an event may call for frames to be sent. The room hands them out
/// as `Delivery` values, one at a time: the host sends the frame to each
/// recipient and reports back, with `delivered`, the recipients whose send
/// failed. A member whose send failed leaves the room, and the others are told
/// so with `UserDisconnected`, which may in turn fail for someone else; the
/// room is ready for its next event when no frame is left to send.
pub struct Chatroom {
    chatroom_id: i32,
    members: Vec<i32>,
    count: u32,
    /// The user whose `Joined` is on its way.
    welcoming: Option<i32>,
    /// The frames still to be sent to every member; the first is on its way.
    pending: Vec<ServerToClientMessage>,
    /// The user who joins once no frame is pending.
    joiner: Option<i32>,
}

/// The members that stay: those that are not in `failed`, in order.
pub open spec fn kept(ms: Seq<i32>, failed: Seq<i32>) -> Seq<i32>
    decreases ms.len(),
{
    if ms.len() == 0 {
        Seq::empty()
    } else if failed.contains(ms.last()) {
        kept(ms.drop_last(), failed)
    } else {
        kept(ms.drop_last(), failed).push(ms.last())
    }
}

/// The members that leave: those that are in `failed`, in order.
pub open spec fn gone(ms: Seq<i32>, failed: Seq<i32>) -> Seq<i32>
    decreases ms.len(),
{
    if ms.len() == 0 {
        Seq::empty()
    } else if failed.contains(ms.last()) {
        gone(ms.drop_last(), failed).push(ms.last())
    } else {
        gone(ms.drop_last(), failed)
    }
}

/// The notices that tell the room that each of `ids` has left.
pub open spec fn departures(ids: Seq<i32>) -> Seq<ServerMessageView> {
    ids.map_values(|u: i32| ServerMessageView::UserDisconnected { user_id: u as int })
}

/// No user appears twice.
pub open spec fn no_dup(ms: Seq<i32>) -> bool {
    forall|i: int, j: int| 0 <= i < j < ms.len() ==> ms[i] != ms[j]
}

/// What each of a sequence of server frames says.
pub open spec fn messages_view(v: Seq<ServerToClientMessage>) -> Seq<ServerMessageView> {
    v.map_values(|m: ServerToClientMessage| m@)
}

/// A delivery of `message` to exactly `to`.
pub open spec fn delivers(d: Delivery, to: Seq<i32>, message: ServerMessageView) -> bool {
    d.recipients@ == to && d.message@ == message
}


proof fn lemma_split(ms: Seq<i32>, failed: Seq<i32>)
    ensures
        kept(ms, failed).len() + gone(ms, failed).len() == ms.len(),
        forall|x: i32| #[trigger]
            kept(ms, failed).contains(x) <==> ms.contains(x) && !failed.contains(x),
        forall|x: i32| #[trigger]
            gone(ms, failed).contains(x) <==> ms.contains(x) && failed.contains(x),
        no_dup(ms) ==> no_dup(kept(ms, failed)),
    decreases ms.len(),
{
    if ms.len() > 0 {
        let init = ms.drop_last();
        lemma_split(init, failed);
        assert forall|x: i32| ms.contains(x) <==> init.contains(x) || x == ms.last() by {
            if ms.contains(x) {
                let k = choose|k: int| 0 <= k < ms.len() && ms[k] == x;
                if k < ms.len() - 1 {
                    assert(init[k] == x);
                }
            }
            if init.contains(x) {
                let k = choose|k: int| 0 <= k < init.len() && init[k] == x;
                assert(ms[k] == x);
            }
            if x == ms.last() {
                assert(ms[ms.len() - 1] == x);
            }
        }
        let k = kept(ms, failed);
        let ki = kept(init, failed);
        assert forall|x: i32| #[trigger] k.contains(x) <==> ki.contains(x) || (x == ms.last()
            && !failed.contains(x)) by {
            if !failed.contains(ms.last()) {
                assert(k == ki.push(ms.last()));
                if k.contains(x) {
                    let j = choose|j: int| 0 <= j < k.len() && k[j] == x;
                    if j < ki.len() {
                        assert(ki[j] == x);
                    }
                }
                if ki.contains(x) {
                    let j = choose|j: int| 0 <= j < ki.len() && ki[j] == x;
                    assert(k[j] == x);
                }
                if x == ms.last() {
                    assert(k[ki.len() as int] == x);
                }
            }
        }
        let g = gone(ms, failed);
        let gi = gone(init, failed);
        assert forall|x: i32| #[trigger] g.contains(x) <==> gi.contains(x) || (x == ms.last()
            && failed.contains(x)) by {
            if failed.contains(ms.last()) {
                assert(g == gi.push(ms.last()));
                if g.contains(x) {
                    let j = choose|j: int| 0 <= j < g.len() && g[j] == x;
                    if j < gi.len() {
                        assert(gi[j] == x);
                    }
                }
                if gi.contains(x) {
                    let j = choose|j: int| 0 <= j < gi.len() && gi[j] == x;
                    assert(g[j] == x);
                }
                if x == ms.last() {
                    assert(g[gi.len() as int] == x);
                }
            }
        }
        if no_dup(ms) {
            assert(no_dup(init));
            if !failed.contains(ms.last()) {
                assert(!init.contains(ms.last())) by {
                    if init.contains(ms.last()) {
                        let j = choose|j: int| 0 <= j < init.len() && init[j] == ms.last();
                        assert(ms[j] == ms[ms.len() - 1]);
                    }
                }
                assert(!ki.contains(ms.last()));
                assert forall|a: int, b: int| 0 <= a < b < k.len() implies k[a] != k[b] by {
                    if b == k.len() - 1 {
                        assert(ki.contains(k[a]));
                    }
                }
            }
        }
    }
}


proof fn lemma_gone_no_dup(ms: Seq<i32>, failed: Seq<i32>)
    requires
        no_dup(ms),
    ensures
        no_dup(gone(ms, failed)),
    decreases ms.len(),
{
    if ms.len() > 0 {
        let init = ms.drop_last();
        assert(no_dup(init));
        lemma_gone_no_dup(init, failed);
        lemma_split(init, failed);
        if failed.contains(ms.last()) {
            let g = gone(ms, failed);
            let gi = gone(init, failed);
            assert(!init.contains(ms.last())) by {
                if init.contains(ms.last()) {
                    let j = choose|j: int| 0 <= j < init.len() && init[j] == ms.last();
                    assert(ms[j] == ms[ms.len() - 1]);
                }
            }
            assert forall|a: int, b: int| 0 <= a < b < g.len() implies g[a] != g[b] by {
                if b == g.len() - 1 {
                    assert(gi.contains(g[a]));
                }
            }
        }
    }
}

fn contains_user(ms: &Vec<i32>, u: i32) -> (r: bool)
    ensures
        r == ms@.contains(u),
{
    let mut i: usize = 0;
    while i < ms.len()
        invariant
            i <= ms@.len(),
            forall|k: int| 0 <= k < i ==> ms@[k] != u,
        decreases ms@.len() - i,
    {
        if ms[i] == u {
            assert(ms@[i as int] == u);
            return true;
        }
        i = i + 1;
    }
    false
}

fn split_members(ms: &Vec<i32>, failed: &Vec<i32>) -> (r: (Vec<i32>, Vec<i32>))
    ensures
        r.0@ == kept(ms@, failed@),
        r.1@ == gone(ms@, failed@),
{
    let mut stay: Vec<i32> = Vec::new();
    let mut left: Vec<i32> = Vec::new();
    let mut i: usize = 0;
    while i < ms.len()
        invariant
            i <= ms@.len(),
            stay@ == kept(ms@.subrange(0, i as int), failed@),
            left@ == gone(ms@.subrange(0, i as int), failed@),
        decreases ms@.len() - i,
    {
        let u = ms[i];
        assert(ms@.subrange(0, i + 1).drop_last() =~= ms@.subrange(0, i as int));
        if contains_user(failed, u) {
            left.push(u);
        } else {
            stay.push(u);
        }
        i = i + 1;
    }
    assert(ms@.subrange(0, i as int) =~= ms@);
    (stay, left)
}

fn copy_ids(ms: &Vec<i32>) -> (r: Vec<i32>)
    ensures
        r@ == ms@,
{
    let mut out: Vec<i32> = Vec::new();
    let mut i: usize = 0;
    while i < ms.len()
        invariant
            i <= ms@.len(),
            out@ == ms@.subrange(0, i as int),
        decreases ms@.len() - i,
    {
        out.push(ms[i]);
        i = i + 1;
        assert(out@ =~= ms@.subrange(0, i as int));
    }
    assert(ms@.subrange(0, i as int) =~= ms@);
    out
}

fn copy_text(s: &String) -> (r: String)
    ensures
        r@ == s@,
{
    s.clone()
}

fn copy_message(m: &ServerToClientMessage) -> (r: ServerToClientMessage)
    ensures
        r@ == m@,
{
    match m {
        ServerToClientMessage::Joined { chatroom_id } => ServerToClientMessage::Joined {
            chatroom_id: *chatroom_id,
        },
        ServerToClientMessage::NewUser { user_id } => ServerToClientMessage::NewUser {
            user_id: *user_id,
        },
        ServerToClientMessage::UserDisconnected { user_id } => ServerToClientMessage::UserDisconnected {
            user_id: *user_id,
        },
        ServerToClientMessage::NewMessage { content } => ServerToClientMessage::NewMessage {
            content: copy_text(content),
        },
        ServerToClientMessage::ChatsFromTodayResponse { messages } => {
            let mut out: Vec<String> = Vec::new();
            let mut i: usize = 0;
            while i < messages.len()
                invariant
                    i <= messages@.len(),
                    out@.len() == i,
                    forall|k: int| 0 <= k < i ==> #[trigger] out@[k]@ == messages@[k]@,
                decreases messages@.len() - i,
            {
                out.push(copy_text(&messages[i]));
                i = i + 1;
            }
            assert(crate::text::views_of(out@) =~= crate::text::views_of(messages@));
            ServerToClientMessage::ChatsFromTodayResponse { messages: out }
        },
    }
}

/// How a room changes when the host reports which sends of the last delivery
/// failed.
pub open spec fn after_delivery(before: Chatroom, failed: Seq<i32>, after: Chatroom) -> bool {
    match before.welcoming() {
        Some(u) => {
            &&& after.members() == before.members()
            &&& if failed.contains(u) {
                &&& after.count() == before.count() - 1
                &&& after.is_idle()
            } else {
                &&& after.count() == before.count()
                &&& after.pending() == seq![ServerMessageView::NewUser { user_id: u as int }]
                &&& after.joiner() == Some(u)
                &&& after.welcoming() is None
            }
        },
        None => {
            let stay = kept(before.members(), failed);
            let left = gone(before.members(), failed);
            let rest = before.pending().drop_first() + departures(left);
            &&& after.count() == before.count() - left.len()
            &&& after.welcoming() is None
            &&& if rest.len() > 0 {
                &&& after.members() == stay
                &&& after.pending() == rest
                &&& after.joiner() == before.joiner()
            } else {
                &&& after.is_idle()
                &&& after.members() == match before.joiner() {
                    Some(u) => stay.push(u),
                    None => stay,
                }
            }
        },
    }
}

/// How a room and the chat store change when the room handles an event,
/// and what the room hands out.
pub open spec fn handled(
    before: Chatroom,
    chats: Seq<(int, int, Seq<char>)>,
    event: ClientToServerEvent,
    now: int,
    day_start: int,
    after: Chatroom,
    chats_after: Seq<(int, int, Seq<char>)>,
    r: Option<Delivery>,
) -> bool {
    &&& after.wf()
    &&& after.id() == before.id()
    &&& (r is None <==> after.is_idle())
    &&& match event {
        ClientToServerEvent::NewMessage(c) => {
            &&& chats_after == chats.push(
                (before.id(), stamp_after(chats, now), c@),
            )
            &&& after.members() == before.members()
            &&& after.count() == before.count()
            &&& after.pending() == seq![ServerMessageView::NewMessage { content: c@ }]
            &&& after.welcoming() is None && after.joiner() is None
            &&& r matches Some(d) && delivers(
                d,
                before.members(),
                ServerMessageView::NewMessage { content: c@ },
            )
        },
        ClientToServerEvent::ChatsFromTodayRequest => {
            let answer = ServerMessageView::ChatsFromTodayResponse {
                messages: chats_since(chats, before.id(), day_start),
            };
            &&& chats_after == chats
            &&& after.members() == before.members()
            &&& after.count() == before.count()
            &&& after.pending() == seq![answer]
            &&& after.welcoming() is None && after.joiner() is None
            &&& r matches Some(d) && delivers(d, before.members(), answer)
        },
        ClientToServerEvent::Connect { user_id } => {
            &&& chats_after == chats
            &&& after.members() == before.members()
            &&& if before.members().contains(user_id) || before.count() == u32::MAX {
                &&& after.count() == before.count()
                &&& after.is_idle()
                &&& r is None
            } else {
                &&& after.count() == before.count() + 1
                &&& after.welcoming() == Some(user_id)
                &&& r matches Some(d) && delivers(
                    d,
                    seq![user_id],
                    ServerMessageView::Joined { chatroom_id: before.id() },
                )
            }
        },
        ClientToServerEvent::Disconnect { user_id } => {
            &&& chats_after == chats
            &&& if before.members().contains(user_id) {
                let stay = kept(before.members(), seq![user_id]);
                let notice = ServerMessageView::UserDisconnected { user_id: user_id as int };
                &&& after.members() == stay
                &&& after.count() == before.count() - 1
                &&& after.pending() == seq![notice]
                &&& after.welcoming() is None && after.joiner() is None
                &&& r matches Some(d) && delivers(d, stay, notice)
            } else {
                &&& after.members() == before.members()
                &&& after.count() == before.count()
                &&& after.is_idle()
                &&& r is None
            }
        },
    }
}

/// How a room changes, and what it hands out next, when the host reports
/// the failed sends of its last delivery.
pub open spec fn reported(before: Chatroom, failed: Seq<i32>, after: Chatroom, r: Option<Delivery>) -> bool {
    &&& after.wf()
    &&& after.id() == before.id()
    &&& after.backlog() < before.backlog()
    &&& (r is None <==> after.is_idle())
    &&& after_delivery(before, failed, after)
    &&& (before.welcoming() matches Some(u) ==> (!failed.contains(u) ==> (r matches Some(d)
        && delivers(d, before.members(), ServerMessageView::NewUser { user_id: u as int }))))
    &&& (before.welcoming() is None && after.pending().len() > 0 ==> (r matches Some(d)
        && delivers(d, after.members(), after.pending()[0])))
}

/// Between two events the published count is the number of members.
pub proof fn lemma_count_at_rest(room: Chatroom)
    requires
        room.wf(),
        room.is_idle(),
    ensures
        room.count() == room.members().len(),
{
}

/// A member whose send failed is out of the room once the failure is
/// reported, and a `UserDisconnected` for it is among the frames still to be
/// sent to every member that remains. Each report lowers the room's backlog
/// (see `delivered`), so the cascade of departures ends.
pub proof fn lemma_failed_member_leaves(before: Chatroom, failed: Seq<i32>, after: Chatroom, u: i32)
    requires
        before.wf(),
        !before.is_idle(),
        before.welcoming() is None,
        before.members().contains(u),
        failed.contains(u),
        after_delivery(before, failed, after),
    ensures
        !after.members().contains(u),
        after.pending().contains(ServerMessageView::UserDisconnected { user_id: u as int }),
        !after.is_idle(),
{
    lemma_split(before.members(), failed);
    let left = gone(before.members(), failed);
    let rest = before.pending().drop_first() + departures(left);
    assert(left.contains(u));
    let k = choose|k: int| 0 <= k < left.len() && left[k] == u;
    let notice = ServerMessageView::UserDisconnected { user_id: u as int };
    assert(departures(left)[k] == notice);
    assert(rest[before.pending().len() - 1 + k] == notice);
    assert(rest.len() > 0);
}

/// Each report moves every frame still waiting one place toward the front,
/// and the room stays busy until the queue is empty: a `UserDisconnected`
/// that is queued is sent, in its turn, to every member the room has then.
pub proof fn lemma_pending_advances(before: Chatroom, failed: Seq<i32>, after: Chatroom, k: int)
    requires
        before.wf(),
        before.welcoming() is None,
        0 < k < before.pending().len(),
        after_delivery(before, failed, after),
    ensures
        !after.is_idle(),
        after.pending()[k - 1] == before.pending()[k],
{
    let left = gone(before.members(), failed);
    let rest = before.pending().drop_first() + departures(left);
    assert(rest[k - 1] == before.pending()[k]);
}

/// A run of delivery reports: `rooms[i + 1]` is the room after the host
/// reported `failed[i]`, and `ds[i]` is the delivery the room then handed out.
pub open spec fn is_run(rooms: Seq<Chatroom>, failed: Seq<Seq<i32>>, ds: Seq<Option<Delivery>>) -> bool {
    &&& rooms.len() == failed.len() + 1
    &&& ds.len() == failed.len()
    &&& forall|i: int| 0 <= i < failed.len() ==> !(#[trigger] rooms[i]).is_idle()
    &&& forall|i: int| 0 <= i < failed.len() ==> reported(rooms[i], failed[i], rooms[i + 1], #[trigger] ds[i])
}

proof fn lemma_run_keeps_out(rooms: Seq<Chatroom>, failed: Seq<Seq<i32>>, ds: Seq<Option<Delivery>>, u: i32, i: int)
    requires
        is_run(rooms, failed, ds),
        rooms[0].wf(),
        failed.len() >= 1,
        rooms[0].welcoming() is None,
        rooms[0].members().contains(u),
        failed[0].contains(u),
        1 <= i < rooms.len(),
    ensures
        rooms[i].wf(),
        rooms[i].welcoming() is None,
        rooms[i - 1].welcoming() is None,
        !rooms[i].members().contains(u),
        rooms[i].joiner() != Some(u),
    decreases i,
{
    assert(reported(rooms[i - 1], failed[i - 1], rooms[i], ds[i - 1]));
    let before = rooms[i - 1];
    let after = rooms[i];
    if i == 1 {
        lemma_failed_member_leaves(before, failed[0], after, u);
        if before.joiner() == Some(u) {
            assert(before.members().contains(u));
        }
    } else {
        lemma_run_keeps_out(rooms, failed, ds, u, i - 1);
        lemma_split(before.members(), failed[i - 1]);
        let stay = kept(before.members(), failed[i - 1]);
        assert(!stay.contains(u));
        if !after.is_idle() {
            assert(after.members() == stay);
        } else {
            match before.joiner() {
                Some(j) => {
                    assert(after.members() == stay.push(j));
                    assert forall|k: int| 0 <= k < after.members().len() implies after.members()[k] != u by {
                        if k < stay.len() {
                            assert(after.members()[k] == stay[k]);
                        }
                    }
                },
                None => {},
            }
        }
    }
}

proof fn lemma_notice_reaches(
    rooms: Seq<Chatroom>,
    failed: Seq<Seq<i32>>,
    ds: Seq<Option<Delivery>>,
    u: i32,
    i: int,
    p: int,
)
    requires
        is_run(rooms, failed, ds),
        rooms[0].wf(),
        failed.len() >= 1,
        rooms[0].welcoming() is None,
        rooms[0].members().contains(u),
        failed[0].contains(u),
        rooms.last().is_idle(),
        1 <= i < rooms.len(),
        0 <= p < rooms[i].pending().len(),
        rooms[i].pending()[p] == (ServerMessageView::UserDisconnected { user_id: u as int }),
    ensures
        exists|k: int|
            0 <= k < ds.len() && (#[trigger] ds[k] matches Some(d) && d.message@
                == (ServerMessageView::UserDisconnected { user_id: u as int }) && d.recipients@
                == rooms[k + 1].members()),
    decreases p,
{
    lemma_run_keeps_out(rooms, failed, ds, u, i);
    if i == rooms.len() - 1 {
        assert(rooms[i] == rooms.last());
        assert(false);
    }
    if p == 0 {
        assert(reported(rooms[i - 1], failed[i - 1], rooms[i], ds[i - 1]));
        assert(ds[i - 1] matches Some(d) && d.message@ == (ServerMessageView::UserDisconnected {
            user_id: u as int,
        }) && d.recipients@ == rooms[i].members());
    } else {
        assert(reported(rooms[i], failed[i], rooms[i + 1], ds[i]));
        assert(!rooms[i].is_idle());
        lemma_pending_advances(rooms[i], failed[i], rooms[i + 1], p);
        lemma_run_keeps_out(rooms, failed, ds, u, i + 1);
        lemma_notice_reaches(rooms, failed, ds, u, i + 1, p - 1);
    }
}

/// A member whose send failed is out of the room for the rest of the
/// cascade, and before the room is ready again it hands out a
/// `UserDisconnected` for that member, addressed to every member it then has.
pub proof fn lemma_cascade(rooms: Seq<Chatroom>, failed: Seq<Seq<i32>>, ds: Seq<Option<Delivery>>, u: i32)
    requires
        is_run(rooms, failed, ds),
        failed.len() >= 1,
        rooms[0].wf(),
        rooms[0].welcoming() is None,
        rooms[0].members().contains(u),
        failed[0].contains(u),
        rooms.last().is_idle(),
    ensures
        forall|i: int| 1 <= i < rooms.len() ==> !(#[trigger] rooms[i]).members().contains(u),
        exists|k: int|
            0 <= k < ds.len() && (#[trigger] ds[k] matches Some(d) && d.message@
                == (ServerMessageView::UserDisconnected { user_id: u as int }) && d.recipients@
                == rooms[k + 1].members()),
{
    assert forall|i: int| 1 <= i < rooms.len() implies !(#[trigger] rooms[i]).members().contains(u) by {
        lemma_run_keeps_out(rooms, failed, ds, u, i);
    }
    assert(reported(rooms[0], failed[0], rooms[1], ds[0]));
    lemma_failed_member_leaves(rooms[0], failed[0], rooms[1], u);
    let notice = ServerMessageView::UserDisconnected { user_id: u as int };
    let p = choose|p: int| 0 <= p < rooms[1].pending().len() && rooms[1].pending()[p] == notice;
    lemma_notice_reaches(rooms, failed, ds, u, 1, p);
}

impl Chatroom {
    pub closed spec fn id(&self) -> int {
        self.chatroom_id as int
    }

    /// The users in the room, in the order they joined.
    pub closed spec fn members(&self) -> Seq<i32> {
        self.members@
    }

    /// The user count that the room publishes.
    pub closed spec fn count(&self) -> nat {
        self.count as nat
    }

    /// Whether the room is ready for its next event.
    pub closed spec fn is_idle(&self) -> bool {
        self.welcoming is None && self.pending@.len() == 0
    }

    /// The user whose `Joined` is on its way, if any.
    pub closed spec fn welcoming(&self) -> Option<i32> {
        self.welcoming
    }

    /// The frames still to be sent to every member; the first is on its way.
    pub closed spec fn pending(&self) -> Seq<ServerMessageView> {
        messages_view(self.pending@)
    }

    /// The user who joins once the pending frames are sent, if any.
    pub closed spec fn joiner(&self) -> Option<i32> {
        self.joiner
    }

    /// How much work is left before the room is ready again; each report of a
    /// delivery lowers it.
    pub open spec fn backlog(&self) -> nat {
        if self.is_idle() {
            0
        } else if self.welcoming() is Some {
            2 * self.members().len() + 4
        } else {
            2 * self.members().len() + self.pending().len() + 1
        }
    }

    /// The room's invariant: members are distinct, a user who is being let in
    /// is not yet a member, and the published count is the number of members
    /// plus the one being let in.
    pub open spec fn wf(&self) -> bool {
        &&& no_dup(self.members())
        &&& self.welcoming() matches Some(u) ==> !self.members().contains(u)
        &&& self.joiner() matches Some(u) ==> !self.members().contains(u)
        &&& !(self.welcoming() is Some && self.joiner() is Some)
        &&& self.welcoming() is Some ==> self.pending().len() == 0
        &&& self.joiner() is Some ==> self.pending().len() > 0
        &&& self.count() == self.members().len() + (if self.welcoming() is Some
            || self.joiner() is Some {
            1int
        } else {
            0int
        })
    }

    /// A new, empty room.
    pub fn new(chatroom_id: i32) -> (r: Chatroom)
        ensures
            r.wf(),
            r.is_idle(),
            r.id() == chatroom_id,
            r.members() == Seq::<i32>::empty(),
            r.count() == 0,
    {
        let r = Chatroom { chatroom_id, members: Vec::new(), count: 0, welcoming: None, pending: Vec::new(), joiner: None };
        r
    }

    pub fn get_chatroom_id(&self) -> (r: i32)
        ensures
            r == self.id(),
    {
        self.chatroom_id
    }

    /// The published user count.
    pub fn get_user_count(&self) -> (r: u32)
        ensures
            r == self.count(),
    {
        self.count
    }


    fn start_broadcast(&mut self, m: ServerToClientMessage) -> (r: Option<Delivery>)
        requires
            old(self).wf(),
            old(self).is_idle(),
        ensures
            final(self).wf(),
            final(self).id() == old(self).id(),
            final(self).members() == old(self).members(),
            final(self).count() == old(self).count(),
            final(self).welcoming() is None,
            final(self).joiner() is None,
            final(self).pending() == seq![m@],
            !final(self).is_idle(),
            r matches Some(d) && delivers(d, old(self).members(), m@),
    {
        let d = Delivery { recipients: copy_ids(&self.members), message: copy_message(&m) };
        self.pending.push(m);
        assert(self.pending() =~= seq![m@]);
        assert(self.pending@.len() == 1);
        Some(d)
    }

    /// Handles the next event of the mailbox.
    ///
    /// `now` is when the event is handled and `day_start` when the local day
    /// began, both in milliseconds since the epoch. A new chat is written to
    /// the store and sent to every member, its author included. A request for today's chats
    /// is answered to every member. A user who connects is first sent
    /// `Joined`; one whose id is already a member, or who would overflow the
    /// count, is turned away. A user who disconnects leaves and the others are
    /// told so; one who already left is not announced again.
    pub fn handle_event(
        &mut self,
        store: &mut Model,
        event: ClientToServerEvent,
        now: i64,
        day_start: i64,
    ) -> (r: Option<Delivery>)
        requires
            old(self).wf(),
            old(self).is_idle(),
            in_time_order(old(store).chats()),
        ensures
            in_time_order(final(store).chats()),
            handled(
                *old(self),
                old(store).chats(),
                event,
                now as int,
                day_start as int,
                *final(self),
                final(store).chats(),
                r,
            ),
    {
        match event {
            ClientToServerEvent::NewMessage(content) => {
                store.insert_chat(self.chatroom_id, content.as_str(), now);
                self.start_broadcast(ServerToClientMessage::NewMessage { content })
            },
            ClientToServerEvent::ChatsFromTodayRequest => {
                let messages = store.get_chats_from_today(self.chatroom_id, day_start);
                self.start_broadcast(ServerToClientMessage::ChatsFromTodayResponse { messages })
            },
            ClientToServerEvent::Connect { user_id } => {
                if contains_user(&self.members, user_id) || self.count == u32::MAX {
                    None
                } else {
                    self.count = self.count + 1;
                    self.welcoming = Some(user_id);
                    let mut recipients: Vec<i32> = Vec::new();
                    recipients.push(user_id);
                    assert(recipients@ =~= seq![user_id]);
                    Some(
                        Delivery {
                            recipients,
                            message: ServerToClientMessage::Joined { chatroom_id: self.chatroom_id },
                        },
                    )
                }
            },
            ClientToServerEvent::Disconnect { user_id } => {
                if contains_user(&self.members, user_id) {
                    let mut single: Vec<i32> = Vec::new();
                    single.push(user_id);
                    let (stay, left) = split_members(&self.members, &single);
                    proof {
                        lemma_split(old(self).members(), single@);
                        assert(single@ =~= seq![user_id]);
                        assert(single@[0] == user_id);
                        assert(single@.contains(user_id));
                        assert(gone(old(self).members(), single@).len() == 1) by {
                            let g = gone(old(self).members(), single@);
                            assert(g.contains(user_id));
                            assert forall|a: int| 0 <= a < g.len() implies g[a] == user_id by {
                                assert(g.contains(g[a]));
                            }
                            if g.len() > 1 {
                                lemma_gone_no_dup(old(self).members(), single@);
                                assert(g[0] == g[1]);
                            }
                        }
                    }
                    self.members = stay;
                    self.count = self.count - 1;
                    self.start_broadcast(ServerToClientMessage::UserDisconnected { user_id })
                } else {
                    None
                }
            },
        }
    }


    /// Takes the report of the delivery that the room handed out last: the
    /// recipients whose send failed. Returns the next delivery, or `None` when
    /// the room is ready for its next event.
    ///
    /// After `Joined`: if it failed, the user is not let in and the count
    /// drops back; otherwise every member is told `NewUser`, and the user
    /// joins once that and what follows from it is sent. After a frame to
    /// every member: each member whose send failed leaves at once, and a
    /// `UserDisconnected` for each is queued behind the pending frames.
    pub fn delivered(&mut self, failed: &Vec<i32>) -> (r: Option<Delivery>)
        requires
            old(self).wf(),
            !old(self).is_idle(),
        ensures
            reported(*old(self), failed@, *final(self), r),
    {
        match self.welcoming {
            Some(u) => {
                self.welcoming = None;
                if contains_user(failed, u) {
                    self.count = self.count - 1;
                    None
                } else {
                    self.joiner = Some(u);
                    let notice = ServerToClientMessage::NewUser { user_id: u };
                    let d = Delivery { recipients: copy_ids(&self.members), message: copy_message(&notice) };
                    self.pending.push(notice);
                    assert(self.pending() =~= seq![d.message@]);
                    Some(d)
                }
            },
            None => {
                let ghost old_pending = self.pending();
                let (stay, left) = split_members(&self.members, failed);
                proof {
                    lemma_split(self.members(), failed@);
                }
                self.members = stay;
                self.count = self.count - left.len() as u32;
                self.pending.remove(0);
                assert(self.pending() =~= old_pending.drop_first());
                let mut i: usize = 0;
                while i < left.len()
                    invariant
                        i <= left@.len(),
                        self.pending() == old_pending.drop_first() + departures(left@.subrange(0, i as int)),
                        self.members == stay,
                        self.count == old(self).count - left@.len(),
                        self.welcoming is None,
                        self.joiner == old(self).joiner,
                        self.chatroom_id == old(self).chatroom_id,
                    decreases left@.len() - i,
                {
                    let ghost before = self.pending();
                    let ghost notice = ServerMessageView::UserDisconnected { user_id: left@[i as int] as int };
                    self.pending.push(ServerToClientMessage::UserDisconnected { user_id: left[i] });
                    assert(self.pending() =~= before.push(notice));
                    assert(departures(left@.subrange(0, i + 1)) =~= departures(left@.subrange(0, i as int)).push(notice));
                    i = i + 1;
                    assert(self.pending() =~= old_pending.drop_first() + departures(left@.subrange(0, i as int)));
                }
                assert(left@.subrange(0, i as int) =~= left@);
                if self.pending.len() > 0 {
                    let d = Delivery { recipients: copy_ids(&self.members), message: copy_message(&self.pending[0]) };
                    Some(d)
                } else {
                    match self.joiner {
                        Some(u) => {
                            let ghost before = self.members@;
                            self.members.push(u);
                            self.joiner = None;
                            assert(!before.contains(u));
                            assert forall|a: int, b: int| 0 <= a < b < self.members@.len() implies self.members@[a] != self.members@[b] by {
                                if b == before.len() {
                                    assert(before.contains(self.members@[a]));
                                }
                            }
                        },
                        None => {},
                    }
                    None
                }
            },
        }
    }

    /// Whether the room is ready for its next event.
    pub fn is_ready(&self) -> (r: bool)
        ensures
            r == self.is_idle(),
    {
        self.welcoming.is_none() && self.pending.len() == 0
    }
}

} // verus!
