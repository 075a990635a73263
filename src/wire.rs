//! The frames that clients and chatroom instances exchange. On the wire each
//! is a JSON object whose `type` names the variant, beside the variant's
//! fields; the host reads and writes that text.
use vstd::prelude::*;
use crate::text::views_of;

verus! {

/// A frame that a client sends to a chatroom instance.
#[derive(Clone, Debug, PartialEq)]
pub enum ClientToServerMessage {
    Join { chatroom_id: i32 },
    NewMessage { content: String },
    ChatsFromTodayRequest,
}

/// A frame that a chatroom instance sends to its clients.
#[derive(Clone, Debug, PartialEq)]
pub enum ServerToClientMessage {
    Joined { chatroom_id: i32 },
    NewUser { user_id: i32 },
    UserDisconnected { user_id: i32 },
    NewMessage { content: String },
    ChatsFromTodayResponse { messages: Vec<String> },
}

/// What a client frame says, with its texts as character sequences.
pub enum ClientMessageView {
    Join { chatroom_id: int },
    NewMessage { content: Seq<char> },
    ChatsFromTodayRequest,
}

/// What a server frame says, with its texts as character sequences.
pub enum ServerMessageView {
    Joined { chatroom_id: int },
    NewUser { user_id: int },
    UserDisconnected { user_id: int },
    NewMessage { content: Seq<char> },
    ChatsFromTodayResponse { messages: Seq<Seq<char>> },
}

impl View for ClientToServerMessage {
    type V = ClientMessageView;

    open spec fn view(&self) -> ClientMessageView {
        match self {
            ClientToServerMessage::Join { chatroom_id } => ClientMessageView::Join {
                chatroom_id: *chatroom_id as int,
            },
            ClientToServerMessage::NewMessage { content } => ClientMessageView::NewMessage {
                content: content@,
            },
            ClientToServerMessage::ChatsFromTodayRequest => ClientMessageView::ChatsFromTodayRequest,
        }
    }
}

impl View for ServerToClientMessage {
    type V = ServerMessageView;

    open spec fn view(&self) -> ServerMessageView {
        match self {
            ServerToClientMessage::Joined { chatroom_id } => ServerMessageView::Joined {
                chatroom_id: *chatroom_id as int,
            },
            ServerToClientMessage::NewUser { user_id } => ServerMessageView::NewUser {
                user_id: *user_id as int,
            },
            ServerToClientMessage::UserDisconnected { user_id } => ServerMessageView::UserDisconnected {
                user_id: *user_id as int,
            },
            ServerToClientMessage::NewMessage { content } => ServerMessageView::NewMessage {
                content: content@,
            },
            ServerToClientMessage::ChatsFromTodayResponse { messages } =>
                ServerMessageView::ChatsFromTodayResponse { messages: views_of(messages@) },
        }
    }
}

} // verus!
