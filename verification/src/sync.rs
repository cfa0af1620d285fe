//! Sync protocol.
//!
//! Protocol flow:
//! - A connects to B
//! - A sends handshake to B
//!     - Message::Welcome if just added to group
//!     - Message::Handshake if not new
//! - B sends handshake to A
//!     - Always Message::Handshake
//! - Peers reach connected state
//! - Peers sync their messages
//!
//! Three tasks serve the connection of a peer: one reads messages off it, one
//! writes messages to it, and one opens and accepts streams. A fourth one
//! handles the messages once the handshake is done. They share a token that
//! any of them can cancel.

use crate::acb::{signed, Signed, SignedMessage};
use crate::clock::{Clock, Entries};
use crate::dgm::Operation;
use crate::text::texts;
use vstd::prelude::*;

verus! {

/// What peers send each other.
#[derive(Debug, PartialEq, Eq)]
pub enum Message {
    Handshake { group_id: u64, local_clock: Clock },
    Welcome { group_id: u64, local_clock: Clock, messages: Vec<SignedMessage<Operation>> },
    Sync { messages: Vec<SignedMessage<Operation>> },
    FileList(Vec<String>),
}

/// What peers send each other, as a value of the model.
pub enum Sent {
    Handshake { group_id: u64, clock: Entries },
    Welcome { group_id: u64, clock: Entries, messages: Seq<Signed<Operation>> },
    Sync { messages: Seq<Signed<Operation>> },
    FileList(Seq<Seq<char>>),
}

impl View for Message {
    type V = Sent;

    open spec fn view(&self) -> Sent {
        match *self {
            Message::Handshake { group_id, local_clock } => Sent::Handshake {
                group_id,
                clock: local_clock@,
            },
            Message::Welcome { group_id, local_clock, messages } => Sent::Welcome {
                group_id,
                clock: local_clock@,
                messages: signed(messages@),
            },
            Message::Sync { messages } => Sent::Sync { messages: signed(messages@) },
            Message::FileList(files) => Sent::FileList(texts(files@)),
        }
    }
}

/// The name under which the protocol is negotiated.
pub fn alpn() -> (name: &'static str)
    ensures
        name@ == "aster/0"@,
{
    "aster/0"
}

/// What the task that reads off a connection sees.
pub enum ReadEvent<M> {
    /// A message came.
    Received(M),
    /// Reading failed.
    Failed,
    /// The stream is finished.
    Finished,
    /// The token was cancelled.
    Cancelled,
}

/// What the task that reads off a connection does.
pub enum ReadStep<M> {
    /// Pass the message on.
    Forward(M),
    /// Cancel the token, and stop.
    CancelAndStop,
    /// Stop.
    Stop,
}

/// What the reading task does on an event.
pub open spec fn read_step<M>(event: ReadEvent<M>) -> ReadStep<M> {
    match event {
        ReadEvent::Received(message) => ReadStep::Forward(message),
        ReadEvent::Failed => ReadStep::CancelAndStop,
        ReadEvent::Finished => ReadStep::CancelAndStop,
        ReadEvent::Cancelled => ReadStep::Stop,
    }
}

/// Decides what the reading task does.
pub fn on_read<M>(event: ReadEvent<M>) -> (step: ReadStep<M>)
    ensures
        step == read_step(event),
{
    match event {
        ReadEvent::Received(message) => ReadStep::Forward(message),
        ReadEvent::Failed => ReadStep::CancelAndStop,
        ReadEvent::Finished => ReadStep::CancelAndStop,
        ReadEvent::Cancelled => ReadStep::Stop,
    }
}

/// What the task that writes to a connection sees.
pub enum WriteEvent<M> {
    /// A message is to be sent.
    Queued(M),
    /// Nobody can queue messages any more.
    Closed,
    /// The token was cancelled.
    Cancelled,
}

/// What the task that writes to a connection does.
pub enum WriteStep<M> {
    /// Send the message.
    Send(M),
    /// Stop.
    Stop,
    /// Finish the stream, and stop.
    FinishAndStop,
}

/// What the writing task does on an event.
pub open spec fn write_step<M>(event: WriteEvent<M>) -> WriteStep<M> {
    match event {
        WriteEvent::Queued(message) => WriteStep::Send(message),
        WriteEvent::Closed => WriteStep::Stop,
        WriteEvent::Cancelled => WriteStep::FinishAndStop,
    }
}

/// Decides what the writing task does.
pub fn on_write<M>(event: WriteEvent<M>) -> (step: WriteStep<M>)
    ensures
        step == write_step(event),
{
    match event {
        WriteEvent::Queued(message) => WriteStep::Send(message),
        WriteEvent::Closed => WriteStep::Stop,
        WriteEvent::Cancelled => WriteStep::FinishAndStop,
    }
}

/// What the task that owns a connection sees. Requests for streams are `R`,
/// streams that the peer opened are `S`.
pub enum ConnectionEvent<R, S> {
    /// A new stream is asked for.
    OpenRequested(R),
    /// The peer opened a stream.
    Accepted(S),
    /// Accepting a stream failed.
    AcceptFailed,
    /// The connection closed.
    Closed,
    /// The token was cancelled.
    Cancelled,
}

/// What the task that owns a connection does.
pub enum ConnectionStep<R, S> {
    /// Open a stream and hand it to who asked.
    Open(R),
    /// Pass the stream on.
    Forward(S),
    /// Go on.
    GoOn,
    /// Cancel the token, and stop.
    CancelAndStop,
    /// Close the connection, and stop.
    CloseAndStop,
}

/// What the owning task does on an event.
pub open spec fn connection_step<R, S>(event: ConnectionEvent<R, S>) -> ConnectionStep<R, S> {
    match event {
        ConnectionEvent::OpenRequested(request) => ConnectionStep::Open(request),
        ConnectionEvent::Accepted(stream) => ConnectionStep::Forward(stream),
        ConnectionEvent::AcceptFailed => ConnectionStep::GoOn,
        ConnectionEvent::Closed => ConnectionStep::CancelAndStop,
        ConnectionEvent::Cancelled => ConnectionStep::CloseAndStop,
    }
}

/// Decides what the owning task does.
pub fn on_connection<R, S>(event: ConnectionEvent<R, S>) -> (step: ConnectionStep<R, S>)
    ensures
        step == connection_step(event),
{
    match event {
        ConnectionEvent::OpenRequested(request) => ConnectionStep::Open(request),
        ConnectionEvent::Accepted(stream) => ConnectionStep::Forward(stream),
        ConnectionEvent::AcceptFailed => ConnectionStep::GoOn,
        ConnectionEvent::Closed => ConnectionStep::CancelAndStop,
        ConnectionEvent::Cancelled => ConnectionStep::CloseAndStop,
    }
}

/// What the task of a connected peer sees.
pub enum PeerEvent {
    /// A message came.
    Received(Message),
    /// The connection closed.
    Closed,
    /// The token was cancelled.
    Cancelled,
}

/// What the task of a connected peer does.
pub enum PeerStep {
    /// Have the messages received and delivered.
    Deliver(Vec<SignedMessage<Operation>>),
    /// Ignore a handshake that is no longer expected.
    Unexpected,
    /// Log the message.
    Show(Message),
    /// Cancel the token, and go on.
    Cancel,
    /// Close the connection, forget the peer, and stop.
    CloseAndStop,
}

/// What the task of a connected peer does on an event.
pub open spec fn peer_step(event: PeerEvent) -> PeerStep {
    match event {
        PeerEvent::Received(Message::Sync { messages }) => PeerStep::Deliver(messages),
        PeerEvent::Received(Message::Handshake { .. }) => PeerStep::Unexpected,
        PeerEvent::Received(Message::Welcome { .. }) => PeerStep::Unexpected,
        PeerEvent::Received(message) => PeerStep::Show(message),
        PeerEvent::Closed => PeerStep::Cancel,
        PeerEvent::Cancelled => PeerStep::CloseAndStop,
    }
}

/// Decides what the task of a connected peer does.
pub fn on_peer(event: PeerEvent) -> (step: PeerStep)
    ensures
        step == peer_step(event),
{
    match event {
        PeerEvent::Received(message) => match message {
            Message::Sync { messages } => PeerStep::Deliver(messages),
            Message::Handshake { .. } => PeerStep::Unexpected,
            Message::Welcome { .. } => PeerStep::Unexpected,
            Message::FileList(files) => PeerStep::Show(Message::FileList(files)),
        },
        PeerEvent::Closed => PeerStep::Cancel,
        PeerEvent::Cancelled => PeerStep::CloseAndStop,
    }
}

/// Cancelling the token stops every task, closes the connection, finishes the
/// stream and forgets the peer.
pub proof fn cancelling_ends_everything<M, R, S>()
    ensures
        read_step(ReadEvent::<M>::Cancelled) is Stop,
        write_step(WriteEvent::<M>::Cancelled) is FinishAndStop,
        connection_step(ConnectionEvent::<R, S>::Cancelled) is CloseAndStop,
        peer_step(PeerEvent::Cancelled) is CloseAndStop,
{
}

/// The end of a connection or of its stream cancels the token, whichever task
/// sees it first.
pub proof fn closing_cancels<M, R, S>()
    ensures
        read_step(ReadEvent::<M>::Failed) is CancelAndStop,
        read_step(ReadEvent::<M>::Finished) is CancelAndStop,
        connection_step(ConnectionEvent::<R, S>::Closed) is CancelAndStop,
        peer_step(PeerEvent::Closed) is Cancel,
{
}

/// A peer is forgotten only after the token was cancelled.
pub proof fn forgotten_only_when_cancelled(event: PeerEvent)
    requires
        peer_step(event) is CloseAndStop,
    ensures
        event is Cancelled,
{
}

/// What comes in is passed on as it is: every message that is read, every
/// message that is queued, every stream that is opened or asked for, and all
/// messages of a sync.
pub proof fn what_comes_in_is_passed_on<M, R, S>(
    message: M,
    request: R,
    stream: S,
    messages: Vec<SignedMessage<Operation>>,
    files: Vec<String>,
)
    ensures
        read_step(ReadEvent::Received(message)) == ReadStep::Forward(message),
        write_step(WriteEvent::Queued(message)) == WriteStep::Send(message),
        connection_step(ConnectionEvent::<R, S>::OpenRequested(request)) == ConnectionStep::<
            R,
            S,
        >::Open(request),
        connection_step(ConnectionEvent::<R, S>::Accepted(stream)) == ConnectionStep::<
            R,
            S,
        >::Forward(stream),
        peer_step(PeerEvent::Received(Message::Sync { messages })) == PeerStep::Deliver(messages),
        peer_step(PeerEvent::Received(Message::FileList(files))) == PeerStep::Show(
            Message::FileList(files),
        ),
{
}

/// Nothing that comes in ends a task, and a stream that could not be accepted
/// does not either.
pub proof fn what_comes_in_ends_nothing<M, R, S>(
    message: M,
    request: R,
    stream: S,
    received: Message,
)
    ensures
        !(read_step(ReadEvent::Received(message)) is Stop),
        !(write_step(WriteEvent::Queued(message)) is Stop),
        connection_step(ConnectionEvent::<R, S>::AcceptFailed) is GoOn,
        write_step(WriteEvent::<M>::Closed) is Stop,
        !(peer_step(PeerEvent::Received(received)) is Cancel),
        !(peer_step(PeerEvent::Received(received)) is CloseAndStop),
{
}

/// A handshake or a welcome after the handshake is ignored.
pub proof fn late_handshakes_are_ignored(received: Message)
    ensures
        peer_step(PeerEvent::Received(received)) is Unexpected <==> received is Handshake
            || received is Welcome,
        peer_step(PeerEvent::Received(received)) is Deliver <==> received is Sync,
{
}

/// What is sent is what the message holds.
pub proof fn messages_show_what_they_hold(message: Message)
    ensures
        match message {
            Message::Handshake { group_id, local_clock } => message@ == (Sent::Handshake {
                group_id,
                clock: local_clock@,
            }),
            Message::Welcome { group_id, local_clock, messages } => {
                &&& message@ is Welcome
                &&& message@->Welcome_group_id == group_id
                &&& message@->Welcome_clock == local_clock@
                &&& message@->Welcome_messages.len() == messages@.len()
                &&& forall|i: int|
                    0 <= i < messages@.len() ==> #[trigger] message@->Welcome_messages[i]
                        == messages@[i]@
            },
            Message::Sync { messages } => {
                &&& message@ is Sync
                &&& message@->Sync_messages.len() == messages@.len()
                &&& forall|i: int|
                    0 <= i < messages@.len() ==> #[trigger] message@->Sync_messages[i]
                        == messages@[i]@
            },
            Message::FileList(files) => {
                &&& message@ is FileList
                &&& message@->FileList_0.len() == files@.len()
                &&& forall|i: int|
                    0 <= i < files@.len() ==> #[trigger] message@->FileList_0[i] == files@[i]@
            },
        },
{
}

} // verus!
