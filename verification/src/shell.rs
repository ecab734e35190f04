//! The remote shell as it serves its client: the connections of the shell's terminals, and what
//! is done on each event.
use std::collections::hash_map::Entry;
use std::collections::HashMap;
use vstd::prelude::*;
use vstd::string::*;

use crate::text::join;

verus! {

broadcast use vstd::std_specs::hash::group_hash_axioms;

/// Bytes of one connection.
#[derive(Debug)]
pub struct RemotePtyDataPayload {
    pub con_id: u32,
    pub data: Vec<u8>,
}

/// What happened to a connection.
#[derive(Debug)]
pub enum RemotePtyEventPayload {
    Connect(u32),
    Payload(RemotePtyDataPayload),
    Close(u32),
}

/// What the client is sent. `N` is what its network peer is told.
#[derive(Debug)]
pub enum ShellServerMessage<N> {
    RemotePtyEvent(RemotePtyEventPayload),
    Network(N),
    Exited(u8),
}

/// What the client sends. `M` is what it tells the network peer here.
#[derive(Debug)]
pub enum ShellClientMessage<M> {
    RemotePtyData(RemotePtyDataPayload),
    Network(M),
    /// Any message that a remote shell does not expect, as it is described.
    Other(String),
}

/// Why nothing more is read from a connection.
#[derive(Clone, Copy, Debug, PartialEq, Eq, Structural)]
pub enum ReadError {
    Eof,
    Failed,
}

impl ReadError {
    /// What is told of the end.
    pub open spec fn text(self) -> Seq<char> {
        match self {
            ReadError::Eof => "stream eof"@,
            ReadError::Failed => "failed to read from stream"@,
        }
    }

    /// What is told of the end.
    pub fn message(self) -> (s: &'static str)
        ensures
            s@ == self.text(),
    {
        match self {
            ReadError::Eof => "stream eof",
            ReadError::Failed => "failed to read from stream",
        }
    }
}

/// Why a remote shell stops serving.
#[derive(Debug)]
pub enum StreamError {
    Accept,
    ReadsEnded,
    /// A message that is not expected, as it is described.
    UnexpectedMessage(String),
    InvalidMessage,
    Wait,
    UnknownConnection,
    Write,
}

impl StreamError {
    /// What is told of the failure.
    pub open spec fn text(&self) -> Seq<char> {
        match self {
            StreamError::Accept => "failed to accept connection"@,
            StreamError::ReadsEnded => "failed to read message"@,
            StreamError::UnexpectedMessage(message) =>
                "received unexpected message from shell client "@ + message@,
            StreamError::InvalidMessage => "received invalid message from shell client"@,
            StreamError::Wait => "failed to wait for proc to exit"@,
            StreamError::UnknownConnection => "unknown connection id"@,
            StreamError::Write => "failed to write to unix stream"@,
        }
    }

    /// What is told of the failure.
    pub fn message(&self) -> (s: String)
        ensures
            s@ == self.text(),
    {
        match self {
            StreamError::Accept => "failed to accept connection".to_owned(),
            StreamError::ReadsEnded => "failed to read message".to_owned(),
            StreamError::UnexpectedMessage(message) => join(
                "received unexpected message from shell client ",
                message.as_str(),
            ),
            StreamError::InvalidMessage => "received invalid message from shell client".to_owned(),
            StreamError::Wait => "failed to wait for proc to exit".to_owned(),
            StreamError::UnknownConnection => "unknown connection id".to_owned(),
            StreamError::Write => "failed to write to unix stream".to_owned(),
        }
    }
}

/// An event that a remote shell serves. `W` is the half of a connection that is written to.
pub enum StreamEvent<W, N, M> {
    /// A terminal of the shell connected.
    Accepted(W),
    AcceptFailed,
    /// A connection gave bytes, or gives no more.
    Read(u32, Result<Vec<u8>, ReadError>),
    /// No read can be told of any more.
    ReadsEnded,
    /// The network peer has something for the client.
    Network(N),
    NetworkEnded,
    /// The client sent a message.
    Client(ShellClientMessage<M>),
    /// The client sent what is no message.
    ClientInvalid,
    ClientEnded,
    /// Bytes were written to the connection, or could not be.
    Written(u32, bool),
    /// The shell's process ended, with a code unless a signal ended it.
    Exited(Option<i32>),
    WaitFailed,
}

/// What follows a message to the client.
#[derive(Debug)]
pub enum Then {
    /// The next event.
    Serve,
    /// Reads from this connection are to be told of, then the next event.
    ReadFrom(u32),
    /// The end.
    Finish,
    /// A failure.
    Fail(StreamError),
}

/// What is done on an event.
pub enum StreamAction<N, M> {
    /// Send the message to the client; what follows.
    Send(ShellServerMessage<N>, Then),
    /// Write the bytes to their connection.
    Write(RemotePtyDataPayload),
    /// Hand the message to the network peer.
    Forward(M),
    /// Wait for the next event.
    Serve,
    /// Stop: all is done.
    Finish,
    /// Stop: something failed.
    Fail(StreamError),
}

/// The action is the last of a service.
pub open spec fn ends<N, M>(action: StreamAction<N, M>) -> bool {
    match action {
        StreamAction::Finish => true,
        StreamAction::Fail(_) => true,
        StreamAction::Send(_, Then::Finish) => true,
        StreamAction::Send(_, Then::Fail(_)) => true,
        _ => false,
    }
}

impl<N, M> StreamAction<N, M> {
    /// Whether the service is over once this is done.
    pub fn is_last(&self) -> (b: bool)
        ensures
            b == ends(*self),
    {
        match self {
            StreamAction::Finish => true,
            StreamAction::Fail(_) => true,
            StreamAction::Send(_, Then::Finish) => true,
            StreamAction::Send(_, Then::Fail(_)) => true,
            _ => false,
        }
    }
}

/// The connections of a remote shell: those that are open, and the number of the next.
pub struct Connections<W> {
    pub open: Map<u32, W>,
    pub next: int,
}

/// The code that the client is told of: the low byte of the process's, or nought.
pub open spec fn exit_byte(code: Option<i32>) -> u8 {
    match code {
        Some(c) => (c as int % 256) as u8,
        None => 0,
    }
}

/// A message about a connection.
pub open spec fn event_message<N>(e: RemotePtyEventPayload) -> ShellServerMessage<N> {
    ShellServerMessage::RemotePtyEvent(e)
}

/// What an event does to the connections, and what is done on it.
pub open spec fn on_event<W, N, M>(cons: Connections<W>, event: StreamEvent<W, N, M>) -> (
    Connections<W>,
    StreamAction<N, M>,
) {
    match event {
        StreamEvent::Accepted(tx) => {
            let con_id = cons.next as u32;
            (
                Connections { open: cons.open.insert(con_id, tx), next: cons.next + 1 },
                StreamAction::Send(
                    event_message(RemotePtyEventPayload::Connect(con_id)),
                    Then::ReadFrom(con_id),
                ),
            )
        },
        StreamEvent::AcceptFailed => (cons, StreamAction::Fail(StreamError::Accept)),
        StreamEvent::Read(con_id, Ok(data)) => (
            cons,
            StreamAction::Send(
                event_message(
                    RemotePtyEventPayload::Payload(RemotePtyDataPayload { con_id, data }),
                ),
                Then::Serve,
            ),
        ),
        StreamEvent::Read(con_id, Err(_)) => (
            Connections { open: cons.open.remove(con_id), next: cons.next },
            StreamAction::Send(event_message(RemotePtyEventPayload::Close(con_id)), Then::Serve),
        ),
        StreamEvent::ReadsEnded => (cons, StreamAction::Fail(StreamError::ReadsEnded)),
        StreamEvent::Network(n) => (
            cons,
            StreamAction::Send(ShellServerMessage::Network(n), Then::Serve),
        ),
        StreamEvent::NetworkEnded => (cons, StreamAction::Serve),
        StreamEvent::Client(ShellClientMessage::RemotePtyData(payload)) => (
            cons,
            if cons.open.contains_key(payload.con_id) {
                StreamAction::Write(payload)
            } else {
                StreamAction::Fail(StreamError::UnknownConnection)
            },
        ),
        StreamEvent::Client(ShellClientMessage::Network(m)) => (cons, StreamAction::Forward(m)),
        StreamEvent::Client(ShellClientMessage::Other(message)) => (
            cons,
            StreamAction::Fail(StreamError::UnexpectedMessage(message)),
        ),
        StreamEvent::ClientInvalid => (cons, StreamAction::Fail(StreamError::InvalidMessage)),
        StreamEvent::ClientEnded => (cons, StreamAction::Finish),
        StreamEvent::Written(con_id, ok) => (
            cons,
            if ok {
                StreamAction::Serve
            } else {
                StreamAction::Send(
                    event_message(RemotePtyEventPayload::Close(con_id)),
                    Then::Fail(StreamError::Write),
                )
            },
        ),
        StreamEvent::Exited(code) => (
            cons,
            StreamAction::Send(ShellServerMessage::Exited(exit_byte(code)), Then::Finish),
        ),
        StreamEvent::WaitFailed => (cons, StreamAction::Fail(StreamError::Wait)),
    }
}

/// A remote shell. `W` is the half of a connection that is written to, and `C` the settings of
/// the network peer.
pub struct RemotePtyShell<W, C> {
    connections: HashMap<u32, W>,
    con_id: u32,
    network_peer_config: C,
}

impl<W, C> View for RemotePtyShell<W, C> {
    type V = Connections<W>;

    closed spec fn view(&self) -> Connections<W> {
        Connections { open: self.connections@, next: self.con_id as int }
    }
}

impl<W, C> RemotePtyShell<W, C> {
    /// Every open connection has a number that was given out.
    pub open spec fn wf(&self) -> bool {
        &&& 0 <= self@.next <= u32::MAX
        &&& forall|id: u32| #[trigger] self@.open.contains_key(id) ==> id < self@.next
    }

    /// The settings of the network peer.
    pub closed spec fn config(&self) -> C {
        self.network_peer_config
    }

    /// A remote shell without connections.
    pub fn new(network_peer_config: C) -> (r: Self)
        ensures
            r.wf(),
            r@.open == Map::<u32, W>::empty(),
            r@.next == 0,
            r.config() == network_peer_config,
    {
        RemotePtyShell { connections: HashMap::new(), con_id: 0, network_peer_config }
    }

    /// The settings of the network peer.
    pub fn network_peer_config(&self) -> (r: &C)
        ensures
            *r == self.config(),
    {
        &self.network_peer_config
    }

    /// A remote shell serves its client by itself.
    pub fn custom_io_handling(&self) -> (r: bool)
        ensures
            r,
    {
        true
    }

    /// The number that the next connection gets.
    pub fn next_con_id(&self) -> (r: u32)
        ensures
            r == self@.next,
    {
        self.con_id
    }

    /// The half of a connection that is written to, if the connection is open.
    pub fn writer(&mut self, con_id: u32) -> (r: Option<&mut W>)
        requires
            old(self).wf(),
        ensures
            final(self).wf(),
            final(self).config() == old(self).config(),
            final(self)@.next == old(self)@.next,
            r is Some <==> old(self)@.open.contains_key(con_id),
            match r {
                Some(w) => *w == old(self)@.open[con_id] && final(self)@.open
                    == old(self)@.open.insert(con_id, *final(w)),
                None => final(self)@.open == old(self)@.open,
            },
    {
        let ghost open = self.connections@;
        let ghost next = self.con_id;
        match self.connections.entry(con_id) {
            Entry::Occupied(e) => {
                assert forall|w: W, id: u32| #[trigger]
                    open.insert(con_id, w).contains_key(id) implies id < next by {
                    assert(old(self)@.open.contains_key(id));
                }
                Some(e.into_mut())
            },
            Entry::Vacant(_) => {
                assert(open.remove(con_id) =~= open);
                None
            },
        }
    }
}

impl<W, C> RemotePtyShell<W, C> {
    /// Takes a connection in, under the next number.
    pub fn handle_new_connection<N, M>(&mut self, tx: W) -> (r: StreamAction<N, M>)
        requires
            old(self).wf(),
            old(self)@.next < u32::MAX,
        ensures
            final(self).wf(),
            final(self).config() == old(self).config(),
            (final(self)@, r) == on_event(old(self)@, StreamEvent::<W, N, M>::Accepted(tx)),
            final(self)@.next == old(self)@.next + 1,
            final(self)@.open == old(self)@.open.insert(old(self)@.next as u32, tx),
            r == StreamAction::<N, M>::Send(
                ShellServerMessage::RemotePtyEvent(
                    RemotePtyEventPayload::Connect(old(self)@.next as u32),
                ),
                Then::ReadFrom(old(self)@.next as u32),
            ),
    {
        let con_id: u32 = self.con_id;
        self.con_id = con_id + 1;
        self.connections.insert(con_id, tx);
        assert forall|id: u32| #[trigger] self@.open.contains_key(id) implies id
            < self@.next by {
            assert(id == con_id || old(self)@.open.contains_key(id));
        }
        StreamAction::Send(
            ShellServerMessage::RemotePtyEvent(RemotePtyEventPayload::Connect(con_id)),
            Then::ReadFrom(con_id),
        )
    }

    /// Finds the connection that bytes of the client are for.
    pub fn handle_data<N, M>(&self, payload: RemotePtyDataPayload) -> (r: StreamAction<N, M>)
        requires
            self.wf(),
        ensures
            (self@, r) == on_event(
                self@,
                StreamEvent::<W, N, M>::Client(ShellClientMessage::RemotePtyData(payload)),
            ),
            self@.open.contains_key(payload.con_id) ==> r == StreamAction::<N, M>::Write(payload),
            !self@.open.contains_key(payload.con_id) ==> r == StreamAction::<N, M>::Fail(
                StreamError::UnknownConnection,
            ),
    {
        if self.connections.contains_key(&payload.con_id) {
            StreamAction::Write(payload)
        } else {
            StreamAction::Fail(StreamError::UnknownConnection)
        }
    }

    /// Tells the client of a read, and drops a connection that gives no more.
    pub fn handle_new_read<N, M>(&mut self, con_id: u32, res: Result<Vec<u8>, ReadError>) -> (r:
        StreamAction<N, M>)
        requires
            old(self).wf(),
        ensures
            final(self).wf(),
            final(self).config() == old(self).config(),
            (final(self)@, r) == on_event(old(self)@, StreamEvent::<W, N, M>::Read(con_id, res)),
            final(self)@.next == old(self)@.next,
            match res {
                Ok(data) => {
                    &&& final(self)@.open == old(self)@.open
                    &&& r matches StreamAction::Send(
                        ShellServerMessage::RemotePtyEvent(RemotePtyEventPayload::Payload(p)),
                        Then::Serve,
                    )
                    &&& p.con_id == con_id
                    &&& p.data == data
                },
                Err(_) => {
                    &&& final(self)@.open == old(self)@.open.remove(con_id)
                    &&& r matches StreamAction::Send(
                        ShellServerMessage::RemotePtyEvent(RemotePtyEventPayload::Close(id)),
                        Then::Serve,
                    )
                    &&& id == con_id
                },
            },
    {
        match res {
            Ok(data) => StreamAction::Send(
                ShellServerMessage::RemotePtyEvent(
                    RemotePtyEventPayload::Payload(RemotePtyDataPayload { con_id, data }),
                ),
                Then::Serve,
            ),
            Err(_) => {
                self.connections.remove(&con_id);
                assert forall|id: u32| #[trigger] self@.open.contains_key(id) implies id
                    < self@.next by {
                    assert(old(self)@.open.contains_key(id));
                }
                StreamAction::Send(
                    ShellServerMessage::RemotePtyEvent(RemotePtyEventPayload::Close(con_id)),
                    Then::Serve,
                )
            },
        }
    }

    /// What is done once bytes were written to a connection, or could not be.
    pub fn handle_written<N, M>(&self, con_id: u32, ok: bool) -> (r: StreamAction<N, M>)
        ensures
            (self@, r) == on_event(self@, StreamEvent::<W, N, M>::Written(con_id, ok)),
            ok ==> r == StreamAction::<N, M>::Serve,
            !ok ==> r == StreamAction::<N, M>::Send(
                ShellServerMessage::RemotePtyEvent(RemotePtyEventPayload::Close(con_id)),
                Then::Fail(StreamError::Write),
            ),
    {
        if ok {
            StreamAction::Serve
        } else {
            StreamAction::Send(
                ShellServerMessage::RemotePtyEvent(RemotePtyEventPayload::Close(con_id)),
                Then::Fail(StreamError::Write),
            )
        }
    }

    /// Tells the client that the shell's process ended.
    pub fn handle_exit<N, M>(&self, code: Option<i32>) -> (r: StreamAction<N, M>)
        ensures
            (self@, r) == on_event(self@, StreamEvent::<W, N, M>::Exited(code)),
            r matches StreamAction::Send(ShellServerMessage::Exited(byte), Then::Finish) && (
            match code {
                Some(c) => byte == c as int % 256,
                None => byte == 0,
            }),
    {
        let byte: u8 = match code {
            Some(c) => low_byte(c),
            None => 0,
        };
        StreamAction::Send(ShellServerMessage::Exited(byte), Then::Finish)
    }

    /// Serves one event.
    pub fn serve<N, M>(&mut self, event: StreamEvent<W, N, M>) -> (r: StreamAction<N, M>)
        requires
            old(self).wf(),
            event is Accepted ==> old(self)@.next < u32::MAX,
        ensures
            final(self).wf(),
            final(self).config() == old(self).config(),
            (final(self)@, r) == on_event(old(self)@, event),
            event matches StreamEvent::Read(con_id, Ok(data)) ==> r == StreamAction::<N, M>::Send(
                ShellServerMessage::RemotePtyEvent(
                    RemotePtyEventPayload::Payload(RemotePtyDataPayload { con_id, data }),
                ),
                Then::Serve,
            ),
    {
        match event {
            StreamEvent::Accepted(tx) => self.handle_new_connection(tx),
            StreamEvent::AcceptFailed => StreamAction::Fail(StreamError::Accept),
            StreamEvent::Read(con_id, res) => self.handle_new_read(con_id, res),
            StreamEvent::ReadsEnded => StreamAction::Fail(StreamError::ReadsEnded),
            StreamEvent::Network(n) => StreamAction::Send(
                ShellServerMessage::Network(n),
                Then::Serve,
            ),
            StreamEvent::NetworkEnded => StreamAction::Serve,
            StreamEvent::Client(message) => match message {
                ShellClientMessage::RemotePtyData(payload) => self.handle_data(payload),
                ShellClientMessage::Network(m) => StreamAction::Forward(m),
                ShellClientMessage::Other(message) => StreamAction::Fail(
                    StreamError::UnexpectedMessage(message),
                ),
            },
            StreamEvent::ClientInvalid => StreamAction::Fail(StreamError::InvalidMessage),
            StreamEvent::ClientEnded => StreamAction::Finish,
            StreamEvent::Written(con_id, ok) => self.handle_written(con_id, ok),
            StreamEvent::Exited(code) => self.handle_exit(code),
            StreamEvent::WaitFailed => StreamAction::Fail(StreamError::Wait),
        }
    }
}

/// The low byte of a code.
fn low_byte(code: i32) -> (b: u8)
    ensures
        b == code as int % 256,
{
    assert(((code as u32) & 0xff) as u8 as int == (code as int) % 256) by (bit_vector);
    ((code as u32) & 0xff) as u8
}

/// What the reader of a connection makes of a read.
pub struct ReadReport {
    /// What is told of the read.
    pub result: Result<Vec<u8>, ReadError>,
    /// Whether to read on.
    pub more: bool,
}

/// What is told of a read, with what it holds.
pub open spec fn told_bytes(result: Result<Vec<u8>, ReadError>) -> Result<Seq<u8>, ReadError> {
    match result {
        Ok(data) => Ok(data@),
        Err(e) => Err(e),
    }
}

/// The bytes that a read into `buffer` gave, unless it failed.
pub open spec fn read_bytes(buffer: Seq<u8>, read: Option<usize>) -> Option<Seq<u8>> {
    match read {
        Some(n) => Some(buffer.take(n as int)),
        None => None,
    }
}

/// What is told of a read that gave these bytes, or failed.
pub open spec fn told_of(read: Option<Seq<u8>>) -> Result<Seq<u8>, ReadError> {
    match read {
        Some(bytes) => if bytes.len() > 0 {
            Ok(bytes)
        } else {
            Err(ReadError::Eof)
        },
        None => Err(ReadError::Failed),
    }
}

/// What the reader of a connection makes of a read into `buffer` that gave so many bytes, or
/// failed: the bytes are told of, and after the last of them the end.
pub fn read_report(buffer: &[u8], read: Option<usize>) -> (r: ReadReport)
    requires
        read matches Some(n) ==> n <= buffer@.len(),
    ensures
        told_bytes(r.result) == told_of(read_bytes(buffer@, read)),
        r.more == (told_of(read_bytes(buffer@, read)) is Ok),
        match read {
            Some(n) => if n > 0 {
                r.more && (r.result matches Ok(data) && data@ == buffer@.take(n as int))
            } else {
                !r.more && r.result == Err::<Vec<u8>, ReadError>(ReadError::Eof)
            },
            None => !r.more && r.result == Err::<Vec<u8>, ReadError>(ReadError::Failed),
        },
{
    match read {
        None => ReadReport { result: Err(ReadError::Failed), more: false },
        Some(n) => {
            if n == 0 {
                return ReadReport { result: Err(ReadError::Eof), more: false };
            }
            let mut data: Vec<u8> = Vec::new();
            let mut i: usize = 0;
            while i < n
                invariant
                    i <= n <= buffer@.len(),
                    data@ == buffer@.take(i as int),
                decreases n - i,
            {
                data.push(buffer[i]);
                i = i + 1;
                assert(data@ =~= buffer@.take(i as int));
            }
            ReadReport { result: Ok(data), more: true }
        },
    }
}

/// All that is told of a connection, where `reads` is what reading from it would give: nothing is
/// read after the end.
pub open spec fn all_told(reads: Seq<Option<Seq<u8>>>) -> Seq<Result<Seq<u8>, ReadError>>
    decreases reads.len(),
{
    if reads.len() == 0 {
        Seq::empty()
    } else {
        let first = told_of(reads.first());
        if first is Ok {
            seq![first] + all_told(reads.drop_first())
        } else {
            seq![first]
        }
    }
}

/// Of a connection that gives bytes `k` times and then no more, those bytes are told of in their
/// order, and after them the end, once, whatever further reads would give.
pub proof fn law_reads_told_in_order(reads: Seq<Option<Seq<u8>>>, k: int)
    requires
        0 <= k <= reads.len(),
        forall|i: int| 0 <= i < k ==> told_of(#[trigger] reads[i]) is Ok,
        k < reads.len() ==> told_of(reads[k]) is Err,
    ensures
        all_told(reads).len() == if k < reads.len() {
            k + 1
        } else {
            k
        },
        forall|i: int|
            0 <= i < k ==> reads[i] is Some && #[trigger] all_told(reads)[i] == Ok::<
                Seq<u8>,
                ReadError,
            >(reads[i]->0),
        k < reads.len() ==> all_told(reads)[k] == told_of(reads[k]) && all_told(reads)[k] is Err,
    decreases k,
{
    if k > 0 {
        let rest = reads.drop_first();
        assert(told_of(reads[0]) is Ok);
        assert forall|i: int| 0 <= i < k - 1 implies told_of(#[trigger] rest[i]) is Ok by {
            assert(rest[i] == reads[i + 1]);
        }
        law_reads_told_in_order(rest, k - 1);
        let told = all_told(reads);
        assert forall|i: int| 0 <= i < k implies reads[i] is Some && #[trigger] told[i] == Ok::<
            Seq<u8>,
            ReadError,
        >(reads[i]->0) by {
            if i > 0 {
                assert(told[i] == all_told(rest)[i - 1]);
                assert(rest[i - 1] == reads[i]);
            }
        }
    }
}

/// Bytes that a connection gives reach the client as they are, as bytes of that connection and of
/// no other, and no connection changes by it.
pub proof fn law_read_bytes_reach_the_client<W, N, M>(
    cons: Connections<W>,
    con_id: u32,
    data: Vec<u8>,
)
    ensures
        ({
            let (then, action) = on_event(cons, StreamEvent::<W, N, M>::Read(con_id, Ok(data)));
            &&& then == cons
            &&& action matches StreamAction::Send(
                ShellServerMessage::RemotePtyEvent(RemotePtyEventPayload::Payload(told)),
                next,
            )
            &&& told.con_id == con_id
            &&& told.data@ == data@
            &&& next == Then::Serve
        }),
{
}

/// What the client is told of two reads differs wherever the reads do: in their connections or in
/// their bytes.
pub proof fn law_different_reads_told_apart<W, N, M>(
    cons: Connections<W>,
    a: u32,
    a_data: Vec<u8>,
    b: u32,
    b_data: Vec<u8>,
)
    ensures
        on_event(cons, StreamEvent::<W, N, M>::Read(a, Ok(a_data))).1 == on_event(
            cons,
            StreamEvent::<W, N, M>::Read(b, Ok(b_data)),
        ).1 ==> a == b && a_data == b_data,
{
    law_read_bytes_reach_the_client::<W, N, M>(cons, a, a_data);
    law_read_bytes_reach_the_client::<W, N, M>(cons, b, b_data);
}

/// A connection that gives no more is closed, and the client is told of that connection. All other
/// connections stay.
pub proof fn law_end_of_a_connection_is_told<W, N, M>(
    cons: Connections<W>,
    con_id: u32,
    error: ReadError,
    other: u32,
)
    ensures
        ({
            let (then, action) = on_event(cons, StreamEvent::<W, N, M>::Read(con_id, Err(error)));
            &&& action matches StreamAction::Send(
                ShellServerMessage::RemotePtyEvent(RemotePtyEventPayload::Close(told)),
                next,
            )
            &&& told == con_id
            &&& next == Then::Serve
            &&& then.next == cons.next
            &&& !then.open.contains_key(con_id)
            &&& other != con_id ==> (then.open.contains_key(other) <==> cons.open.contains_key(
                other,
            ))
            &&& other != con_id && cons.open.contains_key(other) ==> then.open[other]
                == cons.open[other]
        }),
{
}

/// A new connection gets the next number, under which it is written to from then on. The client
/// is told the number, and reads from that connection begin. All other connections stay.
pub proof fn law_new_connection_is_numbered<W, N, M>(cons: Connections<W>, tx: W, other: u32)
    requires
        0 <= cons.next < u32::MAX,
    ensures
        ({
            let (then, action) = on_event(cons, StreamEvent::<W, N, M>::Accepted(tx));
            &&& action matches StreamAction::Send(
                ShellServerMessage::RemotePtyEvent(RemotePtyEventPayload::Connect(told)),
                Then::ReadFrom(from),
            )
            &&& told == cons.next
            &&& from == cons.next
            &&& then.next == cons.next + 1
            &&& then.open.contains_key(told)
            &&& then.open[told] == tx
            &&& other != told ==> (then.open.contains_key(other) <==> cons.open.contains_key(
                other,
            ))
            &&& other != told && cons.open.contains_key(other) ==> then.open[other]
                == cons.open[other]
        }),
{
}

/// Bytes of the client are written to the connection that they are for, as they are, if it is
/// open, and end the service otherwise. No connection changes by it.
pub proof fn law_client_bytes_reach_their_connection<W, N, M>(
    cons: Connections<W>,
    con_id: u32,
    data: Vec<u8>,
)
    ensures
        ({
            let payload = RemotePtyDataPayload { con_id, data };
            let (then, action) = on_event(
                cons,
                StreamEvent::<W, N, M>::Client(ShellClientMessage::RemotePtyData(payload)),
            );
            &&& then == cons
            &&& cons.open.contains_key(con_id) ==> (action matches StreamAction::Write(p)
                && p.con_id == con_id && p.data@ == data@)
            &&& !cons.open.contains_key(con_id) ==> action == StreamAction::<N, M>::Fail(
                StreamError::UnknownConnection,
            )
        }),
{
}

/// Messages between the client and its network peer pass as they are, in both directions.
pub proof fn law_network_messages_pass<W, N, M>(cons: Connections<W>, n: N, m: M)
    ensures
        on_event(cons, StreamEvent::<W, N, M>::Network(n)) == (
            cons,
            StreamAction::<N, M>::Send(ShellServerMessage::Network(n), Then::Serve),
        ),
        on_event(cons, StreamEvent::<W, N, M>::Client(ShellClientMessage::Network(m))) == (
            cons,
            StreamAction::<N, M>::Forward(m),
        ),
        on_event(cons, StreamEvent::<W, N, M>::NetworkEnded) == (
            cons,
            StreamAction::<N, M>::Serve,
        ),
{
}

/// Bytes that could not be written to a connection close it to the client and end the service;
/// bytes that could be written change nothing.
pub proof fn law_failed_write_is_told<W, N, M>(cons: Connections<W>, con_id: u32)
    ensures
        on_event(cons, StreamEvent::<W, N, M>::Written(con_id, true)) == (
            cons,
            StreamAction::<N, M>::Serve,
        ),
        on_event(cons, StreamEvent::<W, N, M>::Written(con_id, false)) == (
            cons,
            StreamAction::<N, M>::Send(
                ShellServerMessage::RemotePtyEvent(RemotePtyEventPayload::Close(con_id)),
                Then::Fail(StreamError::Write),
            ),
        ),
{
}

/// The client's end is a good end, and each other fault ends the service with its own reason.
pub proof fn law_faults_end_the_service<W, N, M>(cons: Connections<W>, message: String)
    ensures
        on_event(cons, StreamEvent::<W, N, M>::ClientEnded) == (
            cons,
            StreamAction::<N, M>::Finish,
        ),
        on_event(cons, StreamEvent::<W, N, M>::AcceptFailed) == (
            cons,
            StreamAction::<N, M>::Fail(StreamError::Accept),
        ),
        on_event(cons, StreamEvent::<W, N, M>::ReadsEnded) == (
            cons,
            StreamAction::<N, M>::Fail(StreamError::ReadsEnded),
        ),
        on_event(cons, StreamEvent::<W, N, M>::ClientInvalid) == (
            cons,
            StreamAction::<N, M>::Fail(StreamError::InvalidMessage),
        ),
        on_event(cons, StreamEvent::<W, N, M>::WaitFailed) == (
            cons,
            StreamAction::<N, M>::Fail(StreamError::Wait),
        ),
        on_event(cons, StreamEvent::<W, N, M>::Client(ShellClientMessage::Other(message))) == (
            cons,
            StreamAction::<N, M>::Fail(StreamError::UnexpectedMessage(message)),
        ),
        StreamError::UnexpectedMessage(message).text()
            == "received unexpected message from shell client "@ + message@,
{
}

/// The exit code is told by its low byte: codes from 0 to 255 as they are, and codes that are 256
/// apart alike. A process that a signal ended is told by nought.
pub proof fn law_exit_code_is_its_low_byte<W, N, M>(cons: Connections<W>, code: i32)
    ensures
        0 <= code < 256 ==> on_event(cons, StreamEvent::<W, N, M>::Exited(Some(code))) == (
            cons,
            StreamAction::<N, M>::Send(ShellServerMessage::Exited(code as u8), Then::Finish),
        ),
        code <= i32::MAX - 256 ==> on_event(cons, StreamEvent::<W, N, M>::Exited(Some(code)))
            == on_event(cons, StreamEvent::<W, N, M>::Exited(Some((code + 256) as i32))),
        on_event(cons, StreamEvent::<W, N, M>::Exited(None)) == (
            cons,
            StreamAction::<N, M>::Send(ShellServerMessage::Exited(0), Then::Finish),
        ),
{
    assert((code as int + 256) % 256 == code as int % 256);
}

/// A service is over after a good end and after a failure, and after nothing else.
pub proof fn law_what_ends_a_service<N, M>(
    message: ShellServerMessage<N>,
    con_id: u32,
    error: StreamError,
    payload: RemotePtyDataPayload,
    m: M,
)
    ensures
        ends(StreamAction::<N, M>::Finish),
        ends(StreamAction::<N, M>::Fail(error)),
        ends(StreamAction::<N, M>::Send(message, Then::Finish)),
        ends(StreamAction::<N, M>::Send(message, Then::Fail(error))),
        !ends(StreamAction::<N, M>::Send(message, Then::Serve)),
        !ends(StreamAction::<N, M>::Send(message, Then::ReadFrom(con_id))),
        !ends(StreamAction::<N, M>::Write(payload)),
        !ends(StreamAction::<N, M>::Forward(m)),
        !ends(StreamAction::<N, M>::Serve),
{
}

/// Of a read, exactly the bytes that it gave are told; a read of nothing is the end, and one that
/// failed is a failure.
pub proof fn law_a_read_is_told_as_it_is(buffer: Seq<u8>, n: usize, data: Vec<u8>, error: ReadError)
    requires
        n <= buffer.len(),
    ensures
        n > 0 ==> told_of(read_bytes(buffer, Some(n))) == Ok::<Seq<u8>, ReadError>(
            buffer.take(n as int),
        ),
        n == 0 ==> told_of(read_bytes(buffer, Some(n))) == Err::<Seq<u8>, ReadError>(
            ReadError::Eof,
        ),
        told_of(read_bytes(buffer, None)) == Err::<Seq<u8>, ReadError>(ReadError::Failed),
        told_bytes(Ok(data)) == Ok::<Seq<u8>, ReadError>(data@),
        told_bytes(Err(error)) == Err::<Seq<u8>, ReadError>(error),
{
}

/// The connections after events.
pub open spec fn after_events<W, N, M>(
    cons: Connections<W>,
    events: Seq<StreamEvent<W, N, M>>,
) -> Connections<W>
    decreases events.len(),
{
    if events.len() == 0 {
        cons
    } else {
        on_event(after_events(cons, events.drop_last()), events.last()).0
    }
}

/// How many of the events are new connections.
pub open spec fn accepted<W, N, M>(events: Seq<StreamEvent<W, N, M>>) -> nat
    decreases events.len(),
{
    if events.len() == 0 {
        0
    } else {
        accepted(events.drop_last()) + if events.last() is Accepted {
            1nat
        } else {
            0nat
        }
    }
}

/// What is done on events, up to the end of the service.
pub open spec fn served<W, N, M>(
    cons: Connections<W>,
    events: Seq<StreamEvent<W, N, M>>,
) -> Seq<StreamAction<N, M>>
    decreases events.len(),
{
    if events.len() == 0 {
        Seq::empty()
    } else {
        let (next, action) = on_event(cons, events.first());
        if ends(action) {
            seq![action]
        } else {
            seq![action] + served(next, events.drop_first())
        }
    }
}

/// The client is told that the shell's process ended.
pub open spec fn tells_exit<N, M>(action: StreamAction<N, M>) -> bool {
    action matches StreamAction::Send(ShellServerMessage::Exited(_), _)
}

/// The client is told of an exit when the shell's process ended and not otherwise, with its code,
/// and that is the end.
pub proof fn law_exit_told_of_the_process<W, N, M>(
    cons: Connections<W>,
    event: StreamEvent<W, N, M>,
)
    ensures
        tells_exit(on_event(cons, event).1) <==> event is Exited,
        event matches StreamEvent::Exited(code) ==> on_event(cons, event).1 == StreamAction::<
            N,
            M,
        >::Send(ShellServerMessage::Exited(exit_byte(code)), Then::Finish),
{
}

/// A service stops at the first action that ends it, and not before that, and so the client is
/// told of an exit once at most, after all else.
pub proof fn law_service_stops_at_its_end<W, N, M>(
    cons: Connections<W>,
    events: Seq<StreamEvent<W, N, M>>,
)
    ensures
        ({
            let done = served(cons, events);
            &&& done.len() <= events.len()
            &&& forall|i: int|
                0 <= i < done.len() ==> #[trigger] done[i] == on_event(
                    after_events(cons, events.take(i)),
                    events[i],
                ).1
            &&& forall|i: int| 0 <= i < done.len() - 1 ==> !ends(#[trigger] done[i])
            &&& done.len() < events.len() ==> done.len() > 0 && ends(done.last())
            &&& forall|i: int|
                0 <= i < done.len() && tells_exit(#[trigger] done[i]) ==> i == done.len() - 1
        }),
    decreases events.len(),
{
    let done = served(cons, events);
    if events.len() > 0 {
        let (next, action) = on_event(cons, events.first());
        let rest = events.drop_first();
        assert(events.take(0) == Seq::<StreamEvent<W, N, M>>::empty());
        assert(done[0] == action);
        if !ends(action) {
            law_service_stops_at_its_end(next, rest);
            let later = served(next, rest);
            assert forall|i: int| 0 <= i < done.len() implies #[trigger] done[i] == on_event(
                after_events(cons, events.take(i)),
                events[i],
            ).1 by {
                if i > 0 {
                    lemma_after_first(cons, events.take(i));
                    assert(events.take(i).drop_first() =~= rest.take(i - 1));
                    assert(done[i] == later[i - 1]);
                }
            }
            assert forall|i: int| 0 <= i < done.len() - 1 implies !ends(#[trigger] done[i]) by {
                if i > 0 {
                    assert(done[i] == later[i - 1]);
                }
            }
            if done.len() < events.len() {
                assert(done.last() == later.last());
            }
        }
        assert forall|i: int| 0 <= i < done.len() && tells_exit(#[trigger] done[i]) implies i
            == done.len() - 1 by {
            law_exit_told_of_the_process(after_events(cons, events.take(i)), events[i]);
            assert(ends(done[i]));
        }
    }
}

/// Events taken from the front.
proof fn lemma_after_first<W, N, M>(cons: Connections<W>, events: Seq<StreamEvent<W, N, M>>)
    requires
        events.len() > 0,
    ensures
        after_events(cons, events) == after_events(
            on_event(cons, events.first()).0,
            events.drop_first(),
        ),
    decreases events.len(),
{
    let front = events.drop_last();
    if events.len() == 1 {
        assert(front.len() == 0);
        assert(after_events(cons, front) == cons);
    } else {
        lemma_after_first(cons, front);
        assert(events.drop_first().drop_last() =~= front.drop_first());
    }
}

/// Connections are numbered in the order in which they come, one after the other.
pub proof fn law_connections_numbered_in_order<W, N, M>(
    cons: Connections<W>,
    events: Seq<StreamEvent<W, N, M>>,
)
    ensures
        after_events(cons, events).next == cons.next + accepted(events),
    decreases events.len(),
{
    if events.len() > 0 {
        law_connections_numbered_in_order(cons, events.drop_last());
    }
}

/// The numbers that two connections get are different, whatever happens in between.
pub proof fn law_connection_numbers_differ<W, N, M>(
    cons: Connections<W>,
    first: W,
    events: Seq<StreamEvent<W, N, M>>,
    second: W,
)
    requires
        0 <= cons.next,
        cons.next + accepted(events) + 1 <= u32::MAX,
    ensures
        ({
            let (then, a) = on_event(cons, StreamEvent::<W, N, M>::Accepted(first));
            let (_, b) = on_event(
                after_events(then, events),
                StreamEvent::<W, N, M>::Accepted(second),
            );
            a != b
        }),
{
    let (then, a) = on_event(cons, StreamEvent::<W, N, M>::Accepted(first));
    law_connections_numbered_in_order(then, events);
    let (_, b) = on_event(after_events(then, events), StreamEvent::<W, N, M>::Accepted(second));
    assert(a->Send_1 == Then::ReadFrom(cons.next as u32));
    assert(b->Send_1 == Then::ReadFrom((cons.next + 1 + accepted(events)) as u32));
}

proof fn lemma_closed_stays<W, N, M>(
    cons: Connections<W>,
    events: Seq<StreamEvent<W, N, M>>,
    con_id: u32,
)
    requires
        con_id < cons.next,
        cons.next + accepted(events) <= u32::MAX,
        !cons.open.contains_key(con_id),
    ensures
        !after_events(cons, events).open.contains_key(con_id),
    decreases events.len(),
{
    if events.len() > 0 {
        let front = events.drop_last();
        lemma_closed_stays(cons, front, con_id);
        law_connections_numbered_in_order(cons, front);
    }
}

/// A connection that gave no more stays closed: bytes for it that come after that, whatever
/// happens in between, end the service as bytes for an unknown connection.
pub proof fn law_closed_connection_stays_closed<W, N, M>(
    cons: Connections<W>,
    con_id: u32,
    error: ReadError,
    events: Seq<StreamEvent<W, N, M>>,
    data: Vec<u8>,
)
    requires
        con_id < cons.next,
        cons.next + accepted(events) <= u32::MAX,
    ensures
        ({
            let (then, told) = on_event(cons, StreamEvent::<W, N, M>::Read(con_id, Err(error)));
            let late = ShellClientMessage::<M>::RemotePtyData(RemotePtyDataPayload { con_id, data });
            &&& told == StreamAction::<N, M>::Send(
                event_message(RemotePtyEventPayload::Close(con_id)),
                Then::Serve,
            )
            &&& on_event(after_events(then, events), StreamEvent::<W, N, M>::Client(late)).1
                == StreamAction::<N, M>::Fail(StreamError::UnknownConnection)
        }),
{
    let (then, told) = on_event(cons, StreamEvent::<W, N, M>::Read(con_id, Err(error)));
    lemma_closed_stays(then, events, con_id);
}

/// The event tells that a connection gives no more.
pub open spec fn closes<W, N, M>(event: StreamEvent<W, N, M>, con_id: u32) -> bool {
    event matches StreamEvent::Read(id, Err(_)) && id == con_id
}

proof fn lemma_open_stays<W, N, M>(
    cons: Connections<W>,
    events: Seq<StreamEvent<W, N, M>>,
    con_id: u32,
)
    requires
        cons.open.contains_key(con_id),
        forall|i: int| 0 <= i < events.len() ==> !closes(#[trigger] events[i], con_id),
    ensures
        after_events(cons, events).open.contains_key(con_id),
    decreases events.len(),
{
    if events.len() > 0 {
        let front = events.drop_last();
        assert forall|i: int| 0 <= i < front.len() implies !closes(
            #[trigger] front[i],
            con_id,
        ) by {
            assert(front[i] == events[i]);
        }
        lemma_open_stays(cons, front, con_id);
        assert(!closes(events[events.len() - 1], con_id));
    }
}

/// A connection stays open until a read of it gives no more: until then, bytes of the client for
/// it are written to it.
pub proof fn law_open_connection_is_written_to<W, N, M>(
    cons: Connections<W>,
    tx: W,
    events: Seq<StreamEvent<W, N, M>>,
    data: Vec<u8>,
)
    requires
        0 <= cons.next < u32::MAX,
        forall|i: int|
            0 <= i < events.len() ==> !closes(#[trigger] events[i], cons.next as u32),
    ensures
        ({
            let con_id = cons.next as u32;
            let (then, _) = on_event(cons, StreamEvent::<W, N, M>::Accepted(tx));
            let payload = RemotePtyDataPayload { con_id, data };
            on_event(
                after_events(then, events),
                StreamEvent::<W, N, M>::Client(ShellClientMessage::RemotePtyData(payload)),
            ).1 == StreamAction::<N, M>::Write(payload)
        }),
{
    let (then, _) = on_event(cons, StreamEvent::<W, N, M>::Accepted(tx));
    lemma_open_stays(then, events, cons.next as u32);
}

} // verus!
