//! The decisions of a client session: what it does on each thing that
//! happens to it, and the ids that new connections get.

use vstd::prelude::*;
use crate::order::Clock;
use crate::query::{
    decoded, json_count_member, json_number_member, json_string_member, member_price,
    posts_order, Query, QueryResponse, QueryView,
};

verus! {

/// What a session writes when the market has gone before the client.
pub const MARKET_CLOSED: &'static str = "{\"response\": \"market closed\"}";

/// What a session writes on a request that it cannot read.
pub const MALFORMED_REQUEST: &'static str = "{\"response\": \"malformed request\"}";

/// Something that happens to a session.
#[derive(Debug)]
pub enum SessionEvent {
    /// The market sent a response.
    Response(QueryResponse),
    /// The market has gone: no response will come any more.
    MarketGone,
    /// The client sent a request.
    Request(String),
    /// The client closed its side of the stream.
    EndOfStream,
    /// Reading from the stream failed.
    ReadFailed,
    /// The server is shutting down.
    Shutdown,
}

/// What a session does next.
#[derive(Debug)]
pub enum SessionAction<S> {
    /// Write the text to the client and go on.
    Write(String),
    /// Write the text to the client, then close the stream.
    WriteAndClose(String),
    /// Hand the query to the market and go on; close the stream where the
    /// market no longer takes queries.
    Forward(Query<S>),
    /// Close the stream.
    Close,
}

/// What a session does next, as mathematical values.
pub enum ActionView<S> {
    /// Write the text to the client and go on.
    Write(Seq<char>),
    /// Write the text to the client, then close the stream.
    WriteAndClose(Seq<char>),
    /// Hand the query to the market and go on.
    Forward(QueryView<S>),
    /// Close the stream.
    Close,
}

impl<S> View for SessionAction<S> {
    type V = ActionView<S>;

    open spec fn view(&self) -> ActionView<S> {
        match *self {
            SessionAction::Write(text) => ActionView::Write(text@),
            SessionAction::WriteAndClose(text) => ActionView::WriteAndClose(text@),
            SessionAction::Forward(query) => ActionView::Forward(query@),
            SessionAction::Close => ActionView::Close,
        }
    }
}

/// What a session does with a request, given the query that the request
/// makes: it hands the query on, or tells the client that it could not read
/// the request.
pub open spec fn request_action<S>(query: Option<QueryView<S>>) -> ActionView<S> {
    match query {
        Some(q) => ActionView::Forward(q),
        None => ActionView::Write(MALFORMED_REQUEST@),
    }
}

/// Whether the event is a request that posts an order.
pub open spec fn event_posts_order(event: SessionEvent) -> bool {
    match event {
        SessionEvent::Request(text) => posts_order(
            json_string_member(text@, "type"@),
            json_string_member(text@, "symbol"@),
            member_price(json_number_member(text@, "price"@)),
            json_count_member(text@, "quantity"@),
        ),
        _ => false,
    }
}

/// Decides what the session of connection `id` does on `event`.
///
/// A response is written as JSON. When the market has gone the client is
/// told so and the stream is closed. A request that reads as a query is
/// handed to the market; on one that does not, the client is told that the
/// request is malformed and the session goes on. The end of the stream, a
/// failed read and a shutdown close the stream.
///
/// A request that posts an order reads `clock`, and the order is submitted
/// at the instant at which the clock then stands. Any other event leaves the
/// clock as it is.
pub fn session_step<S>(id: usize, event: SessionEvent, clock: &mut Clock) -> (action:
    SessionAction<S>)
    ensures
        action@ == match event {
            SessionEvent::Response(response) => ActionView::<S>::Write(response@.json()),
            SessionEvent::MarketGone => ActionView::WriteAndClose(MARKET_CLOSED@),
            SessionEvent::Request(text) => request_action(
                decoded::<S>(
                    id,
                    json_string_member(text@, "type"@),
                    json_string_member(text@, "symbol"@),
                    member_price(json_number_member(text@, "price"@)),
                    json_count_member(text@, "quantity"@),
                    final(clock)@,
                ),
            ),
            SessionEvent::EndOfStream => ActionView::Close,
            SessionEvent::ReadFailed => ActionView::Close,
            SessionEvent::Shutdown => ActionView::Close,
        },
        event_posts_order(event) ==> !final(clock)@.before(old(clock)@),
        !event_posts_order(event) ==> final(clock)@ == old(clock)@,
{
    match event {
        SessionEvent::Response(response) => SessionAction::Write(response.to_json()),
        SessionEvent::MarketGone => SessionAction::WriteAndClose(MARKET_CLOSED.to_owned()),
        SessionEvent::Request(text) => match Query::from_json(text.as_str(), id, clock) {
            Some(query) => SessionAction::Forward(query),
            None => SessionAction::Write(MALFORMED_REQUEST.to_owned()),
        },
        SessionEvent::EndOfStream => SessionAction::Close,
        SessionEvent::ReadFailed => SessionAction::Close,
        SessionEvent::Shutdown => SessionAction::Close,
    }
}

/// The ids of connections: 1 for the first connection, then 2, and so on.
#[derive(Debug)]
pub struct ConnectionIds {
    next: usize,
}

impl View for ConnectionIds {
    type V = nat;

    closed spec fn view(&self) -> nat {
        self.next as nat
    }
}

impl ConnectionIds {
    #[verifier::type_invariant]
    spec fn starts_at_one(self) -> bool {
        self.next >= 1
    }

    /// Creates the source of ids: the first id that it gives is 1.
    pub fn new() -> (ids: ConnectionIds)
        ensures
            ids@ == 1,
    {
        ConnectionIds { next: 1 }
    }

    /// Gives a fresh id: one more than the id given before. Gives none once
    /// the ids have run out.
    pub fn allocate(&mut self) -> (id: Option<usize>)
        ensures
            match id {
                Some(given) => given == old(self)@ && final(self)@ == given + 1 && given >= 1,
                None => old(self)@ == usize::MAX && final(self)@ == old(self)@,
            },
    {
        proof {
            use_type_invariant(&*self);
        }
        if self.next == usize::MAX {
            None
        } else {
            let given = self.next;
            self.next = given + 1;
            Some(given)
        }
    }
}

} // verus!
