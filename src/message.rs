use vstd::prelude::*;

verus! {

/// Target selector of a query: every peer, or the one peer whose
/// identifier (its printable text, as bytes) is given.
#[derive(Clone, Debug)]
pub enum ListMode {
    All,
    One(Vec<u8>),
}

/// A query published to the whole group.
#[derive(Clone, Debug)]
pub struct ListRequest {
    pub mode: ListMode,
}

/// A reply published to the whole group but meant for `receiver` alone.
#[derive(Clone, Debug)]
pub struct ListResponse {
    pub mode: ListMode,
    pub data: Vec<u8>,
    pub receiver: Vec<u8>,
}

/// What an inbound payload decodes to.
#[derive(Clone, Debug)]
pub enum Message {
    Request(ListRequest),
    Response(ListResponse),
}

/// A mode as a value: its identifier as a sequence of bytes.
pub enum ModeView {
    All,
    One(Seq<u8>),
}

/// A query as a value.
pub struct RequestView {
    pub mode: ModeView,
}

/// A reply as a value.
pub struct ResponseView {
    pub mode: ModeView,
    pub data: Seq<u8>,
    pub receiver: Seq<u8>,
}

/// A decoded payload as a value.
pub enum MessageView {
    Request(RequestView),
    Response(ResponseView),
}

impl View for ListMode {
    type V = ModeView;

    open spec fn view(&self) -> ModeView {
        match self {
            ListMode::All => ModeView::All,
            ListMode::One(id) => ModeView::One(id@),
        }
    }
}

impl View for ListRequest {
    type V = RequestView;

    open spec fn view(&self) -> RequestView {
        RequestView { mode: self.mode@ }
    }
}

impl View for ListResponse {
    type V = ResponseView;

    open spec fn view(&self) -> ResponseView {
        ResponseView { mode: self.mode@, data: self.data@, receiver: self.receiver@ }
    }
}

impl View for Message {
    type V = MessageView;

    open spec fn view(&self) -> MessageView {
        match self {
            Message::Request(q) => MessageView::Request(q@),
            Message::Response(r) => MessageView::Response(r@),
        }
    }
}

} // verus!
