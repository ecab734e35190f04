use tunshell::shell::{
    read_report, ReadError, RemotePtyDataPayload, RemotePtyEventPayload, RemotePtyShell,
    ShellClientMessage, ShellServerMessage, StreamAction, StreamError, StreamEvent, Then,
};

type Action = StreamAction<&'static str, &'static str>;

fn shell() -> RemotePtyShell<Vec<u8>, u8> {
    RemotePtyShell::new(9)
}

fn describe(action: Action) -> String {
    match action {
        StreamAction::Send(m, then) => {
            let message = match m {
                ShellServerMessage::RemotePtyEvent(RemotePtyEventPayload::Connect(id)) => {
                    format!("connect {}", id)
                }
                ShellServerMessage::RemotePtyEvent(RemotePtyEventPayload::Payload(p)) => {
                    format!("payload {} {:?}", p.con_id, p.data)
                }
                ShellServerMessage::RemotePtyEvent(RemotePtyEventPayload::Close(id)) => {
                    format!("close {}", id)
                }
                ShellServerMessage::Network(n) => format!("network {}", n),
                ShellServerMessage::Exited(c) => format!("exited {}", c),
            };
            format!("{} then {:?}", message, then)
        }
        StreamAction::Write(p) => format!("write {} {:?}", p.con_id, p.data),
        StreamAction::Forward(m) => format!("forward {}", m),
        StreamAction::Serve => "serve".to_string(),
        StreamAction::Finish => "finish".to_string(),
        StreamAction::Fail(e) => format!("fail {}", e.message()),
    }
}

fn serve(
    shell: &mut RemotePtyShell<Vec<u8>, u8>,
    event: StreamEvent<Vec<u8>, &'static str, &'static str>,
) -> String {
    describe(shell.serve(event))
}

fn data(con_id: u32, data: &[u8]) -> StreamEvent<Vec<u8>, &'static str, &'static str> {
    StreamEvent::Client(ShellClientMessage::RemotePtyData(RemotePtyDataPayload {
        con_id,
        data: data.to_vec(),
    }))
}

#[test]
fn connections_are_numbered_and_written_to() {
    let mut s = shell();
    assert_eq!(serve(&mut s, StreamEvent::Accepted(vec![])), "connect 0 then ReadFrom(0)");
    assert_eq!(serve(&mut s, StreamEvent::Accepted(vec![1])), "connect 1 then ReadFrom(1)");
    assert_eq!(s.next_con_id(), 2);
    assert_eq!(serve(&mut s, data(1, b"x")), "write 1 [120]");
    s.writer(1).unwrap().push(2);
    assert_eq!(s.writer(1), Some(&mut vec![1, 2]));
    assert_eq!(s.writer(0), Some(&mut vec![]));
    assert_eq!(s.writer(2), None);
}

#[test]
fn connection_that_gives_no_more_is_closed_for_good() {
    let mut s = shell();
    serve(&mut s, StreamEvent::Accepted(vec![]));
    assert_eq!(serve(&mut s, StreamEvent::Read(0, Ok(vec![1, 2]))), "payload 0 [1, 2] then Serve");
    assert_eq!(serve(&mut s, StreamEvent::Read(0, Err(ReadError::Eof))), "close 0 then Serve");
    assert_eq!(serve(&mut s, StreamEvent::Accepted(vec![])), "connect 1 then ReadFrom(1)");
    assert_eq!(serve(&mut s, data(0, b"x")), "fail unknown connection id");
    assert_eq!(serve(&mut s, StreamEvent::Read(7, Err(ReadError::Failed))), "close 7 then Serve");
}

#[test]
fn failed_write_closes_and_ends() {
    let mut s = shell();
    serve(&mut s, StreamEvent::Accepted(vec![]));
    assert_eq!(serve(&mut s, StreamEvent::Written(0, true)), "serve");
    assert_eq!(serve(&mut s, StreamEvent::Written(0, false)), "close 0 then Fail(Write)");
    assert_eq!(StreamError::Write.message(), "failed to write to unix stream");
}

#[test]
fn network_messages_pass_both_ways() {
    let mut s = shell();
    assert_eq!(serve(&mut s, StreamEvent::Network("n")), "network n then Serve");
    assert_eq!(serve(&mut s, StreamEvent::NetworkEnded), "serve");
    assert_eq!(serve(&mut s, StreamEvent::Client(ShellClientMessage::Network("m"))), "forward m");
}

#[test]
fn ends_and_failures() {
    let mut s = shell();
    assert_eq!(serve(&mut s, StreamEvent::ClientEnded), "finish");
    assert_eq!(serve(&mut s, StreamEvent::AcceptFailed), "fail failed to accept connection");
    assert_eq!(serve(&mut s, StreamEvent::ReadsEnded), "fail failed to read message");
    assert_eq!(
        serve(&mut s, StreamEvent::Client(ShellClientMessage::Other("Resize(80, 24)".to_string()))),
        "fail received unexpected message from shell client Resize(80, 24)"
    );
    assert_eq!(
        serve(&mut s, StreamEvent::ClientInvalid),
        "fail received invalid message from shell client"
    );
    assert_eq!(serve(&mut s, StreamEvent::WaitFailed), "fail failed to wait for proc to exit");
}

#[test]
fn exit_code_is_cut_to_a_byte() {
    let mut s = shell();
    for (code, byte) in [
        (Some(0), 0),
        (Some(3), 3),
        (Some(255), 255),
        (Some(256), 0),
        (Some(-1), 255),
        (Some(i32::MIN), 0),
        (Some(i32::MAX), 255),
        (Some(-300), 212),
        (None, 0),
    ] {
        assert_eq!(
            serve(&mut s, StreamEvent::Exited(code)),
            format!("exited {} then {:?}", byte, Then::Finish)
        );
        assert_eq!(byte, code.map(|i| i as u8).unwrap_or(0));
    }
}

#[test]
fn reads_are_told_of_until_the_end() {
    let buffer = [5u8, 6, 7];
    let r = read_report(&buffer, Some(2));
    assert_eq!(r.result, Ok(vec![5, 6]));
    assert!(r.more);
    let r = read_report(&buffer, Some(0));
    assert_eq!(r.result, Err(ReadError::Eof));
    assert!(!r.more);
    let r = read_report(&buffer, None);
    assert_eq!(r.result, Err(ReadError::Failed));
    assert!(!r.more);
}

#[test]
fn a_connection_is_told_of_in_order_and_ended_once() {
    let reads: [(&[u8], Option<usize>); 5] =
        [(b"abc", Some(2)), (b"xyz", Some(3)), (b"---", Some(0)), (b"no", Some(2)), (b"no", None)];
    let mut told = Vec::new();
    for (buffer, read) in reads {
        let report = read_report(buffer, read);
        told.push(report.result);
        if !report.more {
            break;
        }
    }
    assert_eq!(told, vec![Ok(b"ab".to_vec()), Ok(b"xyz".to_vec()), Err(ReadError::Eof)]);
    assert_eq!(ReadError::Eof.message(), "stream eof");
    assert_eq!(ReadError::Failed.message(), "failed to read from stream");
}

#[test]
fn service_stops_at_its_end() {
    let last = |event: StreamEvent<Vec<u8>, &'static str, &'static str>| {
        let mut s = shell();
        s.serve(event).is_last()
    };
    assert!(last(StreamEvent::Exited(Some(1))));
    assert!(last(StreamEvent::ClientEnded));
    assert!(last(StreamEvent::WaitFailed));
    assert!(last(StreamEvent::Written(0, false)));
    assert!(!last(StreamEvent::Written(0, true)));
    assert!(!last(StreamEvent::Accepted(vec![])));
    assert!(!last(StreamEvent::Read(0, Err(ReadError::Eof))));
    assert!(!last(StreamEvent::Network("n")));
    assert!(!last(StreamEvent::NetworkEnded));
    assert!(!last(StreamEvent::Client(ShellClientMessage::Network("m"))));
}

#[test]
fn shell_serves_by_itself() {
    let s = shell();
    assert_eq!(*s.network_peer_config(), 9);
    assert!(s.custom_io_handling());
}
