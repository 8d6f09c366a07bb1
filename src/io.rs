//! The per-connection worker, as a state machine from events to actions,
//! and the messages exchanged with the server loop. The driver that owns
//! the socket and the channels feeds it events and performs its actions.
use vstd::prelude::*;

verus! {

/// The identifier of one live connection.
#[derive(Debug, PartialEq, Eq, Hash, Clone, Copy, Structural)]
pub struct Client(pub usize);

/// A property of an authenticated profile.
pub struct ProfileProperty {
    pub name: String,
    pub value: String,
    pub signature: Option<String>,
}

/// What a completed handshake determined about the peer.
pub struct Registration {
    /// The peer's address, as text.
    pub ip: String,
    /// The name that the peer chose.
    pub username: String,
    /// The properties of the peer's authenticated profile.
    pub profile: Vec<ProfileProperty>,
    /// The session's UUID.
    pub uuid: u128,
}

/// A message between the server loop and a connection's worker; packets
/// travel as their encoded bytes.
pub enum ServerToHandleMessage {
    /// The server asks the worker to write a packet to the socket.
    SendPacket(Vec<u8>),
    /// The worker tells the server that a packet arrived.
    NotifyPacketReceived(Vec<u8>),
    /// The worker tells the server that the connection ended.
    NotifyDisconnect,
    /// The server asks the worker to close the connection with a reason.
    Disconnect(String),
}

/// The phase of a connection.
#[derive(Debug, PartialEq, Eq, Clone, Copy, Structural)]
pub enum WorkerState {
    Accepted,
    Handshaking,
    Registered,
    Relaying,
    Closed,
    Errored,
}

/// What happened to a connection.
pub enum WorkerEvent {
    /// The worker began to serve the socket.
    Started,
    /// Bytes arrived from the socket.
    SocketBytes(Vec<u8>),
    /// The handshake finished and admitted the peer.
    HandshakeSucceeded(Registration),
    /// The handshake refused the peer, with a reason.
    HandshakeFailed(String),
    /// The new-client message reached the server loop.
    RegistrationDelivered,
    /// A complete packet arrived from the socket.
    PacketReceived(Vec<u8>),
    /// A message arrived from the server loop.
    FromServer(ServerToHandleMessage),
    /// The server's sending endpoint was closed.
    ServerClosed,
    /// The socket failed, or the peer broke the protocol.
    Failed,
}

/// What the driver should do next.
pub enum WorkerAction {
    /// Nothing.
    Idle,
    /// Hand the bytes to the handshake.
    FeedHandshake(Vec<u8>),
    /// Send the new-client message to the server loop.
    Register(Registration),
    /// Tell the server loop that a packet arrived.
    Forward(Vec<u8>),
    /// Write the bytes to the socket.
    Write(Vec<u8>),
    /// Close the socket with a reason for the peer.
    CloseWithReason(String),
    /// Close the socket with a reason for the peer, and tell the server
    /// loop of the disconnect.
    DisconnectAndNotify(String),
    /// Close the socket and tell the server loop of the disconnect.
    CloseAndNotify,
    /// Close the socket; the server loop need not be told.
    Close,
}

/// The worker of one connection.
pub struct Worker {
    pub state: WorkerState,
}

/// Whether a state is final.
pub open spec fn is_terminal(s: WorkerState) -> bool {
    s == WorkerState::Closed || s == WorkerState::Errored
}

/// Whether the server loop knows of the connection in this state.
pub open spec fn is_known_to_server(s: WorkerState) -> bool {
    s == WorkerState::Registered || s == WorkerState::Relaying
}

/// The next state after an event.
pub open spec fn next_state(s: WorkerState, e: WorkerEvent) -> WorkerState {
    if is_terminal(s) {
        s
    } else {
        match e {
            WorkerEvent::Failed => WorkerState::Errored,
            WorkerEvent::Started => if s == WorkerState::Accepted {
                WorkerState::Handshaking
            } else {
                s
            },
            WorkerEvent::HandshakeSucceeded(_) => if s == WorkerState::Handshaking {
                WorkerState::Registered
            } else {
                WorkerState::Errored
            },
            WorkerEvent::HandshakeFailed(_) => if s == WorkerState::Handshaking {
                WorkerState::Closed
            } else {
                WorkerState::Errored
            },
            WorkerEvent::RegistrationDelivered => if s == WorkerState::Registered {
                WorkerState::Relaying
            } else {
                WorkerState::Errored
            },
            WorkerEvent::SocketBytes(_) => if s == WorkerState::Handshaking {
                s
            } else {
                WorkerState::Errored
            },
            WorkerEvent::PacketReceived(_) => if s == WorkerState::Relaying {
                s
            } else {
                WorkerState::Errored
            },
            WorkerEvent::FromServer(m) => if s == WorkerState::Relaying {
                match m {
                    ServerToHandleMessage::SendPacket(_) => s,
                    ServerToHandleMessage::Disconnect(_) => WorkerState::Closed,
                    _ => s,
                }
            } else {
                s
            },
            WorkerEvent::ServerClosed => if is_known_to_server(s) {
                WorkerState::Closed
            } else {
                s
            },
        }
    }
}

/// The action for an event.
pub open spec fn next_action(s: WorkerState, e: WorkerEvent) -> WorkerAction {
    if is_terminal(s) {
        WorkerAction::Idle
    } else {
        match e {
            WorkerEvent::Failed => if is_known_to_server(s) {
                WorkerAction::CloseAndNotify
            } else {
                WorkerAction::Close
            },
            WorkerEvent::Started => WorkerAction::Idle,
            WorkerEvent::HandshakeSucceeded(r) => if s == WorkerState::Handshaking {
                WorkerAction::Register(r)
            } else if is_known_to_server(s) {
                WorkerAction::CloseAndNotify
            } else {
                WorkerAction::Close
            },
            WorkerEvent::HandshakeFailed(reason) => if s == WorkerState::Handshaking {
                WorkerAction::CloseWithReason(reason)
            } else if is_known_to_server(s) {
                WorkerAction::CloseAndNotify
            } else {
                WorkerAction::Close
            },
            WorkerEvent::RegistrationDelivered => if s == WorkerState::Registered {
                WorkerAction::Idle
            } else if is_known_to_server(s) {
                WorkerAction::CloseAndNotify
            } else {
                WorkerAction::Close
            },
            WorkerEvent::SocketBytes(b) => if s == WorkerState::Handshaking {
                WorkerAction::FeedHandshake(b)
            } else if is_known_to_server(s) {
                WorkerAction::CloseAndNotify
            } else {
                WorkerAction::Close
            },
            WorkerEvent::PacketReceived(p) => if s == WorkerState::Relaying {
                WorkerAction::Forward(p)
            } else if is_known_to_server(s) {
                WorkerAction::CloseAndNotify
            } else {
                WorkerAction::Close
            },
            WorkerEvent::FromServer(m) => if s == WorkerState::Relaying {
                match m {
                    ServerToHandleMessage::SendPacket(p) => WorkerAction::Write(p),
                    ServerToHandleMessage::Disconnect(reason) => WorkerAction::DisconnectAndNotify(
                        reason,
                    ),
                    _ => WorkerAction::Idle,
                }
            } else {
                WorkerAction::Idle
            },
            WorkerEvent::ServerClosed => if is_known_to_server(s) {
                WorkerAction::Close
            } else {
                WorkerAction::Idle
            },
        }
    }
}

impl Worker {
    /// A worker for a freshly accepted socket.
    pub fn new() -> (r: Worker)
        ensures
            r.state == WorkerState::Accepted,
    {
        Worker { state: WorkerState::Accepted }
    }

    /// Takes one event: moves to the next state and says what to do.
    /// Once closed or errored, every event is ignored.
    pub fn step(&mut self, event: WorkerEvent) -> (r: WorkerAction)
        ensures
            final(self).state == next_state(old(self).state, event),
            r == next_action(old(self).state, event),
    {
        let s = self.state;
        if s == WorkerState::Closed || s == WorkerState::Errored {
            return WorkerAction::Idle;
        }
        let known = s == WorkerState::Registered || s == WorkerState::Relaying;
        let leave = if known {
            WorkerAction::CloseAndNotify
        } else {
            WorkerAction::Close
        };
        match event {
            WorkerEvent::Failed => {
                self.state = WorkerState::Errored;
                leave
            },
            WorkerEvent::Started => {
                if s == WorkerState::Accepted {
                    self.state = WorkerState::Handshaking;
                }
                WorkerAction::Idle
            },
            WorkerEvent::HandshakeSucceeded(r) => {
                if s == WorkerState::Handshaking {
                    self.state = WorkerState::Registered;
                    WorkerAction::Register(r)
                } else {
                    self.state = WorkerState::Errored;
                    leave
                }
            },
            WorkerEvent::HandshakeFailed(reason) => {
                if s == WorkerState::Handshaking {
                    self.state = WorkerState::Closed;
                    WorkerAction::CloseWithReason(reason)
                } else {
                    self.state = WorkerState::Errored;
                    leave
                }
            },
            WorkerEvent::RegistrationDelivered => {
                if s == WorkerState::Registered {
                    self.state = WorkerState::Relaying;
                    WorkerAction::Idle
                } else {
                    self.state = WorkerState::Errored;
                    leave
                }
            },
            WorkerEvent::SocketBytes(b) => {
                if s == WorkerState::Handshaking {
                    WorkerAction::FeedHandshake(b)
                } else {
                    self.state = WorkerState::Errored;
                    leave
                }
            },
            WorkerEvent::PacketReceived(p) => {
                if s == WorkerState::Relaying {
                    WorkerAction::Forward(p)
                } else {
                    self.state = WorkerState::Errored;
                    leave
                }
            },
            WorkerEvent::FromServer(m) => {
                if s == WorkerState::Relaying {
                    match m {
                        ServerToHandleMessage::SendPacket(p) => WorkerAction::Write(p),
                        ServerToHandleMessage::Disconnect(reason) => {
                            self.state = WorkerState::Closed;
                            WorkerAction::DisconnectAndNotify(reason)
                        },
                        _ => WorkerAction::Idle,
                    }
                } else {
                    WorkerAction::Idle
                }
            },
            WorkerEvent::ServerClosed => {
                if known {
                    self.state = WorkerState::Closed;
                    WorkerAction::Close
                } else {
                    WorkerAction::Idle
                }
            },
        }
    }
}


/// The actions that a worker in state `s` takes for `events`, in order.
pub open spec fn run_actions(s: WorkerState, events: Seq<WorkerEvent>) -> Seq<WorkerAction>
    decreases events.len(),
{
    if events.len() == 0 {
        Seq::empty()
    } else {
        seq![next_action(s, events[0])] + run_actions(next_state(s, events[0]), events.drop_first())
    }
}

/// How many of the actions send a new-client message.
pub open spec fn count_registrations(acts: Seq<WorkerAction>) -> nat
    decreases acts.len(),
{
    if acts.len() == 0 {
        0
    } else {
        (if acts[0] is Register { 1nat } else { 0nat }) + count_registrations(acts.drop_first())
    }
}

/// How many of the actions tell the server loop of a disconnect.
pub open spec fn count_notifications(acts: Seq<WorkerAction>) -> nat
    decreases acts.len(),
{
    if acts.len() == 0 {
        0
    } else {
        (if acts[0] is CloseAndNotify || acts[0] is DisconnectAndNotify {
            1nat
        } else {
            0nat
        }) + count_notifications(acts.drop_first())
    }
}

proof fn lemma_registrations_bound(s: WorkerState, events: Seq<WorkerEvent>)
    ensures
        count_registrations(run_actions(s, events)) <= if s == WorkerState::Accepted || s
            == WorkerState::Handshaking {
            1nat
        } else {
            0nat
        },
    decreases events.len(),
{
    if events.len() > 0 {
        let acts = run_actions(s, events);
        assert(acts.drop_first() =~= run_actions(next_state(s, events[0]), events.drop_first()));
        lemma_registrations_bound(next_state(s, events[0]), events.drop_first());
    }
}

/// Whatever happens to a connection, its worker sends the new-client
/// message to the server loop at most once.
pub proof fn lemma_registers_at_most_once(events: Seq<WorkerEvent>)
    ensures
        count_registrations(run_actions(WorkerState::Accepted, events)) <= 1,
{
    lemma_registrations_bound(WorkerState::Accepted, events);
}

proof fn lemma_notifications_bound(s: WorkerState, events: Seq<WorkerEvent>)
    ensures
        count_notifications(run_actions(s, events)) <= if is_terminal(s) {
            0nat
        } else {
            1nat
        },
    decreases events.len(),
{
    if events.len() > 0 {
        let acts = run_actions(s, events);
        assert(acts.drop_first() =~= run_actions(next_state(s, events[0]), events.drop_first()));
        lemma_notifications_bound(next_state(s, events[0]), events.drop_first());
    }
}

/// Whatever happens to a connection, the server loop is told of its
/// disconnect at most once.
pub proof fn lemma_notifies_at_most_once(events: Seq<WorkerEvent>)
    ensures
        count_notifications(run_actions(WorkerState::Accepted, events)) <= 1,
{
    lemma_notifications_bound(WorkerState::Accepted, events);
}

/// Packets arriving on the socket, one event each.
pub open spec fn packet_events(packets: Seq<Vec<u8>>) -> Seq<WorkerEvent> {
    Seq::new(packets.len(), |i: int| WorkerEvent::PacketReceived(packets[i]))
}

/// A relaying worker forwards the packets of its socket to the server loop
/// unchanged and in the order they arrived, and keeps relaying.
pub proof fn lemma_relay_keeps_order(packets: Seq<Vec<u8>>)
    ensures
        run_actions(WorkerState::Relaying, packet_events(packets)) == Seq::new(
            packets.len(),
            |i: int| WorkerAction::Forward(packets[i]),
        ),
    decreases packets.len(),
{
    let evs = packet_events(packets);
    if packets.len() > 0 {
        lemma_relay_keeps_order(packets.drop_first());
        assert(evs.drop_first() =~= packet_events(packets.drop_first()));
        assert(run_actions(WorkerState::Relaying, evs) =~= Seq::new(
            packets.len(),
            |i: int| WorkerAction::Forward(packets[i]),
        ));
    } else {
        assert(run_actions(WorkerState::Relaying, evs) =~= Seq::new(
            packets.len(),
            |i: int| WorkerAction::Forward(packets[i]),
        ));
    }
}


/// A connection that the server knows of is only ever closed with a
/// notification to the server, unless the server itself went away.
pub proof fn lemma_close_notifies(s: WorkerState, e: WorkerEvent)
    requires
        is_known_to_server(s),
        is_terminal(next_state(s, e)),
        !(e is ServerClosed),
    ensures
        next_action(s, e) is CloseAndNotify || next_action(s, e) is DisconnectAndNotify,
{
}

} // verus!
