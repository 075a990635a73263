//! The life of one accepted WebSocket: join once, then pass events on.
use vstd::prelude::*;
use crate::random::random_i32;
use crate::room::ClientToServerEvent;
use crate::wire::{ClientMessageView, ClientToServerMessage};

verus! {

/// Where a socket stands.
#[derive(Clone, Copy, Debug, PartialEq, Eq, Structural)]
pub enum SessionState {
    /// Accepted; its first frame has not come yet.
    AwaitingJoin,
    /// It joined this room.
    Joined { chatroom_id: i32 },
    /// It is done: it never joined, or its stream ended.
    Closed,
}

/// What the host does with a socket after one of its frames, or its end.
pub enum SessionAction {
    /// Look up the room, creating it if needed, and hand it `Connect` with the
    /// socket's writing half.
    Connect { chatroom_id: i32 },
    /// Hand this event to the socket's room.
    Forward(ClientToServerEvent),
    /// Nothing.
    Ignore,
    /// Close the socket.
    Close,
}

/// One accepted WebSocket and the user id it was given.
pub struct Session {
    pub user_id: i32,
    pub state: SessionState,
}

/// What a frame says, if it holds a client frame.
pub open spec fn frame_view(frame: Option<ClientToServerMessage>) -> Option<ClientMessageView> {
    match frame {
        Some(m) => Some(m@),
        None => None,
    }
}

impl Session {
    /// A socket just accepted, with the user id drawn for it.
    pub fn new(user_id: i32) -> (r: Session)
        ensures
            r.user_id == user_id,
            r.state == SessionState::AwaitingJoin,
    {
        Session { user_id, state: SessionState::AwaitingJoin }
    }

    /// A socket just accepted, with a user id drawn at random over all of
    /// `i32`.
    pub fn accept() -> (r: Session)
        ensures
            r.state == SessionState::AwaitingJoin,
    {
        Session::new(random_i32())
    }

    /// Takes the socket's next frame: the client frame it holds, or `None`
    /// for a frame that holds none (not text, or text that is no client
    /// frame).
    ///
    /// The first frame must be `Join`: it connects the socket to that room;
    /// anything else closes the socket. Once joined, `NewMessage` and
    /// `ChatsFromTodayRequest` go to the room, and a second `Join`, or a frame
    /// that holds no client frame, is dropped.
    pub fn on_frame(&mut self, frame: Option<ClientToServerMessage>) -> (r: SessionAction)
        ensures
            final(self).user_id == old(self).user_id,
            match old(self).state {
                SessionState::AwaitingJoin => match frame_view(frame) {
                    Some(ClientMessageView::Join { chatroom_id }) => {
                        &&& final(self).state == SessionState::Joined { chatroom_id: chatroom_id as i32 }
                        &&& r == SessionAction::Connect { chatroom_id: chatroom_id as i32 }
                    },
                    _ => final(self).state == SessionState::Closed && r is Close,
                },
                SessionState::Joined { chatroom_id } => {
                    &&& final(self).state == old(self).state
                    &&& match frame_view(frame) {
                        Some(ClientMessageView::NewMessage { content }) => r matches SessionAction::Forward(
                            ClientToServerEvent::NewMessage(c),
                        ) && c@ == content,
                        Some(ClientMessageView::ChatsFromTodayRequest) => r matches SessionAction::Forward(
                            ClientToServerEvent::ChatsFromTodayRequest,
                        ),
                        _ => r is Ignore,
                    }
                },
                SessionState::Closed => final(self).state == SessionState::Closed && r is Ignore,
            },
    {
        match self.state {
            SessionState::AwaitingJoin => match frame {
                Some(ClientToServerMessage::Join { chatroom_id }) => {
                    self.state = SessionState::Joined { chatroom_id };
                    SessionAction::Connect { chatroom_id }
                },
                _ => {
                    self.state = SessionState::Closed;
                    SessionAction::Close
                },
            },
            SessionState::Joined { .. } => match frame {
                Some(ClientToServerMessage::NewMessage { content }) => SessionAction::Forward(
                    ClientToServerEvent::NewMessage(content),
                ),
                Some(ClientToServerMessage::ChatsFromTodayRequest) => SessionAction::Forward(
                    ClientToServerEvent::ChatsFromTodayRequest,
                ),
                _ => SessionAction::Ignore,
            },
            SessionState::Closed => SessionAction::Ignore,
        }
    }

    /// Takes the end of the socket's stream: a joined socket disconnects from
    /// its room.
    pub fn on_end(&mut self) -> (r: SessionAction)
        ensures
            final(self).user_id == old(self).user_id,
            final(self).state == SessionState::Closed,
            match old(self).state {
                SessionState::Joined { .. } => r matches SessionAction::Forward(
                    ClientToServerEvent::Disconnect { user_id },
                ) && user_id == old(self).user_id,
                _ => r is Ignore,
            },
    {
        let r = match self.state {
            SessionState::Joined { .. } => SessionAction::Forward(
                ClientToServerEvent::Disconnect { user_id: self.user_id },
            ),
            _ => SessionAction::Ignore,
        };
        self.state = SessionState::Closed;
        r
    }
}

} // verus!
