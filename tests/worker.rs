use feather_net::io::{
    Registration, ServerToHandleMessage, Worker, WorkerAction, WorkerEvent, WorkerState,
};

fn steve() -> Registration {
    Registration {
        ip: String::from("127.0.0.1:25565"),
        username: String::from("Steve"),
        profile: Vec::new(),
        uuid: 7,
    }
}

fn admitted() -> Worker {
    let mut w = Worker::new();
    assert!(matches!(w.step(WorkerEvent::Started), WorkerAction::Idle));
    assert!(matches!(w.step(WorkerEvent::HandshakeSucceeded(steve())), WorkerAction::Register(_)));
    assert!(matches!(w.step(WorkerEvent::RegistrationDelivered), WorkerAction::Idle));
    assert_eq!(w.state, WorkerState::Relaying);
    w
}

#[test]
fn handshake_as_steve_registers_once_and_relays() {
    let mut w = Worker::new();
    let mut registrations = Vec::new();
    let events = vec![
        WorkerEvent::Started,
        WorkerEvent::SocketBytes(vec![1, 2, 3]),
        WorkerEvent::HandshakeSucceeded(steve()),
        WorkerEvent::RegistrationDelivered,
        WorkerEvent::HandshakeSucceeded(steve()),
    ];
    for e in events {
        if let WorkerAction::Register(r) = w.step(e) {
            registrations.push(r);
        }
    }
    assert_eq!(registrations.len(), 1);
    assert_eq!(registrations[0].username, "Steve");
    assert_eq!(w.state, WorkerState::Errored);

    let mut w = admitted();
    match w.step(WorkerEvent::FromServer(ServerToHandleMessage::SendPacket(vec![9, 8, 7]))) {
        WorkerAction::Write(bytes) => assert_eq!(bytes, vec![9, 8, 7]),
        _ => panic!("packet was not written"),
    }
}

#[test]
fn handshake_bytes_go_to_the_handshake() {
    let mut w = Worker::new();
    w.step(WorkerEvent::Started);
    match w.step(WorkerEvent::SocketBytes(vec![0xFE, 0x01])) {
        WorkerAction::FeedHandshake(b) => assert_eq!(b, vec![0xFE, 0x01]),
        _ => panic!("bytes were not fed to the handshake"),
    }
    assert_eq!(w.state, WorkerState::Handshaking);
}

#[test]
fn rejected_handshake_closes_with_reason() {
    let mut w = Worker::new();
    w.step(WorkerEvent::Started);
    match w.step(WorkerEvent::HandshakeFailed(String::from("bad login"))) {
        WorkerAction::CloseWithReason(r) => assert_eq!(r, "bad login"),
        _ => panic!("no reason given"),
    }
    assert_eq!(w.state, WorkerState::Closed);
    assert!(matches!(w.step(WorkerEvent::PacketReceived(vec![1])), WorkerAction::Idle));
}

#[test]
fn packets_are_forwarded_in_order() {
    let mut a = admitted();
    let mut b = admitted();
    let mut out_a = Vec::new();
    let mut out_b = Vec::new();
    for i in 0..10u8 {
        if let WorkerAction::Forward(p) = a.step(WorkerEvent::PacketReceived(vec![i])) {
            out_a.push(p[0]);
        }
        if i == 4 {
            assert!(matches!(b.step(WorkerEvent::ServerClosed), WorkerAction::Close));
        }
        if let WorkerAction::Forward(p) = b.step(WorkerEvent::PacketReceived(vec![100 + i])) {
            out_b.push(p[0]);
        }
    }
    assert_eq!(out_a, (0..10u8).collect::<Vec<u8>>());
    assert_eq!(out_b, vec![100, 101, 102, 103]);
}

#[test]
fn disconnect_notifies_once() {
    let mut w = admitted();
    let mut notifies = 0;
    let events = vec![
        WorkerEvent::FromServer(ServerToHandleMessage::Disconnect(String::from("kicked"))),
        WorkerEvent::Failed,
        WorkerEvent::ServerClosed,
    ];
    for e in events {
        match w.step(e) {
            WorkerAction::DisconnectAndNotify(r) => {
                assert_eq!(r, "kicked");
                notifies += 1;
            },
            WorkerAction::CloseAndNotify => notifies += 1,
            _ => {},
        }
    }
    assert_eq!(notifies, 1);
    let mut w = admitted();
    assert!(matches!(w.step(WorkerEvent::Failed), WorkerAction::CloseAndNotify));
    assert_eq!(w.state, WorkerState::Errored);
}

#[test]
fn repeated_registration_notice_closes_and_notifies() {
    let mut w = admitted();
    assert!(matches!(w.step(WorkerEvent::RegistrationDelivered), WorkerAction::CloseAndNotify));
    assert_eq!(w.state, WorkerState::Errored);
    assert!(matches!(w.step(WorkerEvent::Failed), WorkerAction::Idle));
}
