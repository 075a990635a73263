//! An instance's rooms, created on first touch.
use vstd::prelude::*;
use crate::channel::{channel_id_of, get_channel_id};
use crate::room::{handled, reported, Chatroom, ClientToServerEvent, Delivery};
use crate::store::{in_time_order, Model};

verus! {

/// The room id of each term.
pub open spec fn term_ids(terms: Seq<String>) -> Seq<int> {
    terms.map_values(|t: String| channel_id_of(t@))
}

/// An instance's rooms, at most one per chatroom id, each created on first
/// touch and kept for the life of the process, and the store of their chats.
pub struct Rooms {
    rooms: Vec<Chatroom>,
    store: Model,
}

/// The room count that a `POST /chatrooms` answers for one term.
pub struct TermCount {
    pub term: String,
    pub chatroom_id: i32,
    pub user_count: u32,
}

impl Rooms {
    /// The rooms, oldest first.
    pub closed spec fn rooms(&self) -> Seq<Chatroom> {
        self.rooms@
    }

    pub open spec fn wf(&self) -> bool {
        &&& in_time_order(self.chats())
        &&& forall|i: int| 0 <= i < self.rooms().len() ==> (#[trigger] self.rooms()[i]).wf()
        &&& forall|i: int, j: int|
            0 <= i < j < self.rooms().len() ==> self.rooms()[i].id() != self.rooms()[j].id()
    }

    /// The chats of the instance's rooms, oldest first.
    pub closed spec fn chats(&self) -> Seq<(int, int, Seq<char>)> {
        self.store.chats()
    }

    /// Whether a room with this id exists.
    pub open spec fn has(&self, chatroom_id: int) -> bool {
        exists|i: int| 0 <= i < self.rooms().len() && #[trigger] self.rooms()[i].id() == chatroom_id
    }

    pub fn new() -> (r: Rooms)
        ensures
            r.wf(),
            r.rooms() == Seq::<Chatroom>::empty(),
    {
        Rooms { rooms: Vec::new(), store: Model::new() }
    }

    /// The position of the room with this id, creating the room, empty, if
    /// there is none.
    pub fn get_channel(&mut self, chatroom_id: i32) -> (r: usize)
        requires
            old(self).wf(),
        ensures
            final(self).wf(),
            r < final(self).rooms().len(),
            final(self).rooms()[r as int].id() == chatroom_id,
            final(self).chats() == old(self).chats(),
            if old(self).has(chatroom_id as int) {
                final(self).rooms() == old(self).rooms()
            } else {
                &&& final(self).rooms() == old(self).rooms().push(final(self).rooms()[r as int])
                &&& final(self).rooms()[r as int].is_idle()
                &&& final(self).rooms()[r as int].count() == 0
                &&& final(self).rooms()[r as int].members().len() == 0
            },
    {
        let mut i: usize = 0;
        while i < self.rooms.len()
            invariant
                self.wf(),
                i <= self.rooms@.len(),
                forall|k: int| 0 <= k < i ==> self.rooms@[k].id() != chatroom_id,
            decreases self.rooms@.len() - i,
        {
            if self.rooms[i].get_chatroom_id() == chatroom_id {
                return i;
            }
            i = i + 1;
        }
        self.rooms.push(Chatroom::new(chatroom_id));
        assert(!old(self).has(chatroom_id as int));
        assert forall|j: int| 0 <= j < self.rooms().len() implies (#[trigger] self.rooms()[j]).wf() by {
            if j < i {
                assert(self.rooms()[j] == old(self).rooms()[j]);
            }
        }
        assert forall|j: int, k: int| 0 <= j < k < self.rooms().len() implies self.rooms()[j].id()
            != self.rooms()[k].id() by {
            assert(self.rooms()[j] == old(self).rooms()[j]);
            if k < i {
                assert(self.rooms()[k] == old(self).rooms()[k]);
            }
        }
        i
    }

    /// The room at position `i`.
    pub fn room(&self, i: usize) -> (r: &Chatroom)
        requires
            i < self.rooms().len(),
        ensures
            *r == self.rooms()[i as int],
    {
        &self.rooms[i]
    }

    /// Hands the next event to the room at position `i`, which must be ready
    /// for it; see `Chatroom::handle_event`.
    pub fn handle_event(&mut self, i: usize, event: ClientToServerEvent, now: i64, day_start: i64) -> (r:
        Option<Delivery>)
        requires
            old(self).wf(),
            i < old(self).rooms().len(),
            old(self).rooms()[i as int].is_idle(),
        ensures
            final(self).wf(),
            final(self).rooms().len() == old(self).rooms().len(),
            forall|j: int| 0 <= j < old(self).rooms().len() && j != i ==> final(self).rooms()[j]
                == old(self).rooms()[j],
            handled(
                old(self).rooms()[i as int],
                old(self).chats(),
                event,
                now as int,
                day_start as int,
                final(self).rooms()[i as int],
                final(self).chats(),
                r,
            ),
    {
        let mut room = self.rooms.remove(i);
        let r = room.handle_event(&mut self.store, event, now, day_start);
        self.rooms.insert(i, room);
        assert forall|j: int, k: int| 0 <= j < k < self.rooms@.len() implies self.rooms@[j].id()
            != self.rooms@[k].id() by {
            assert(self.rooms@[j].id() == old(self).rooms@[j].id());
            assert(self.rooms@[k].id() == old(self).rooms@[k].id());
        }
        r
    }

    /// Reports the failed sends of the last delivery of the room at position
    /// `i`, which must be waiting for that report; see `Chatroom::delivered`.
    pub fn delivered(&mut self, i: usize, failed: &Vec<i32>) -> (r: Option<Delivery>)
        requires
            old(self).wf(),
            i < old(self).rooms().len(),
            !old(self).rooms()[i as int].is_idle(),
        ensures
            final(self).wf(),
            final(self).rooms().len() == old(self).rooms().len(),
            forall|j: int| 0 <= j < old(self).rooms().len() && j != i ==> final(self).rooms()[j]
                == old(self).rooms()[j],
            reported(old(self).rooms()[i as int], failed@, final(self).rooms()[i as int], r),
            final(self).chats() == old(self).chats(),
    {
        let mut room = self.rooms.remove(i);
        let r = room.delivered(failed);
        self.rooms.insert(i, room);
        assert forall|j: int, k: int| 0 <= j < k < self.rooms@.len() implies self.rooms@[j].id()
            != self.rooms@[k].id() by {
            assert(self.rooms@[j].id() == old(self).rooms@[j].id());
            assert(self.rooms@[k].id() == old(self).rooms@[k].id());
        }
        r
    }

    /// For each term, its room id and the user count of that room, creating
    /// the room, with a count of zero, where there was none.
    pub fn chatroom_counts(&mut self, terms: &Vec<String>) -> (r: Vec<TermCount>)
        requires
            old(self).wf(),
        ensures
            final(self).wf(),
            r@.len() == terms@.len(),
            forall|k: int|
                0 <= k < terms@.len() ==> {
                    &&& (#[trigger] r@[k]).term@ == terms@[k]@
                    &&& r@[k].chatroom_id == channel_id_of(terms@[k]@)
                    &&& exists|j: int|
                        0 <= j < final(self).rooms().len() && #[trigger] final(self).rooms()[j].id()
                            == r@[k].chatroom_id && final(self).rooms()[j].count() == r@[k].user_count
                    &&& !old(self).has(r@[k].chatroom_id as int) ==> r@[k].user_count == 0
                },
            forall|j: int| 0 <= j < old(self).rooms().len() ==> final(self).rooms()[j]
                == old(self).rooms()[j],
            forall|j: int|
                old(self).rooms().len() <= j < final(self).rooms().len() ==> term_ids(terms@).contains(
                    #[trigger] final(self).rooms()[j].id(),
                ),
            final(self).chats() == old(self).chats(),
    {
        let mut out: Vec<TermCount> = Vec::new();
        let mut k: usize = 0;
        while k < terms.len()
            invariant
                self.wf(),
                k <= terms@.len(),
                out@.len() == k,
                old(self).rooms().len() <= self.rooms().len(),
                forall|j: int| 0 <= j < old(self).rooms().len() ==> self.rooms()[j] == old(self).rooms()[j],
                forall|j: int| old(self).rooms().len() <= j < self.rooms().len() ==> (#[trigger] self.rooms()[j]).count() == 0,
                forall|j: int|
                    old(self).rooms().len() <= j < self.rooms().len() ==> term_ids(
                        terms@.subrange(0, k as int),
                    ).contains(#[trigger] self.rooms()[j].id()),
                self.chats() == old(self).chats(),
                forall|q: int|
                    0 <= q < k ==> {
                        &&& (#[trigger] out@[q]).term@ == terms@[q]@
                        &&& out@[q].chatroom_id == channel_id_of(terms@[q]@)
                        &&& exists|j: int|
                            0 <= j < self.rooms().len() && #[trigger] self.rooms()[j].id()
                                == out@[q].chatroom_id && self.rooms()[j].count() == out@[q].user_count
                        &&& !old(self).has(out@[q].chatroom_id as int) ==> out@[q].user_count == 0
                    },
            decreases terms@.len() - k,
        {
            let id = get_channel_id(terms[k].as_str());
            let ghost before = self.rooms();
            let i = self.get_channel(id);
            let count = self.rooms[i].get_user_count();
            proof {
                if !old(self).has(id as int) {
                    if (i as int) < old(self).rooms().len() {
                        assert(old(self).rooms()[i as int].id() == id);
                    }
                }
                assert forall|q: int| 0 <= q < k implies exists|j: int|
                    0 <= j < self.rooms().len() && #[trigger] self.rooms()[j].id() == (#[trigger] out@[q]).chatroom_id
                        && self.rooms()[j].count() == out@[q].user_count by {
                    let w = choose|w: int| 0 <= w < before.len() && #[trigger] before[w].id() == out@[q].chatroom_id
                        && before[w].count() == out@[q].user_count;
                    assert(self.rooms()[w] == before[w]);
                }
                assert(self.rooms()[i as int].id() == id);
                let ghost ids0 = term_ids(terms@.subrange(0, k as int));
                let ghost ids1 = term_ids(terms@.subrange(0, k + 1));
                assert(ids1[k as int] == id);
                assert forall|j: int| old(self).rooms().len() <= j < self.rooms().len() implies ids1.contains(
                    #[trigger] self.rooms()[j].id()) by {
                    if j < before.len() {
                        assert(self.rooms()[j] == before[j]);
                        let q = choose|q: int| 0 <= q < ids0.len() && ids0[q] == before[j].id();
                        assert(ids1[q] == ids0[q]);
                    }
                }
            }
            out.push(TermCount { term: terms[k].clone(), chatroom_id: id, user_count: count });
            k = k + 1;
        }
        assert(terms@.subrange(0, k as int) =~= terms@);
        out
    }
}

} // verus!
