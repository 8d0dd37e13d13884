use dkim_lite::config::{IpAddress, ListenAddr, RuntimeConfig, TcpAddress};
use dkim_lite::dkim::Header;
use dkim_lite::frame::{read_packet, write_packet, Incoming, Outgoing};
use dkim_lite::message::{receive_header, MessageState, MAX_HEADERS, MAX_HEADER_BYTES};
use dkim_lite::milter::{
    accept_message, connection_expired, no_reply_flag, Conversation, Progress, Session, Step,
    ACTION_ADD_HEADER, ACTION_CHANGE_HEADER, CONNECTION_MILLIS, PROTOCOL_NR_HEADER, SUPPORTED_ACTIONS, SUPPORTED_NO_REPLY,
};
use openssl::pkey::PKey;
use openssl::rsa::Rsa;
use std::sync::Arc;

fn config_of(domain: &str, selector: &str) -> Arc<RuntimeConfig> {
    let key = PKey::from_rsa(Rsa::generate(2048).unwrap()).unwrap();
    Arc::new(RuntimeConfig {
        domain: domain.into(),
        selector: selector.into(),
        private_key: "unused".into(),
        listen: ListenAddr::Tcp(TcpAddress {
            ip: IpAddress::V4(0x7f00_0001),
            port: 8891,
            scope: 0,
        }),
        require_fips: false,
        key: Arc::new(key),
    })
}

/// An MTA at the other end of a connection.
struct Client {
    conversation: Conversation,
    active: Option<Arc<RuntimeConfig>>,
    replies: Incoming,
    reports: Vec<String>,
    result: Option<Result<(), String>>,
}

impl Client {
    fn new(active: Option<Arc<RuntimeConfig>>) -> Self {
        Client {
            conversation: Conversation::new(),
            active,
            replies: Incoming::new(),
            reports: Vec::new(),
            result: None,
        }
    }

    fn run(&mut self, elapsed_millis: u64) {
        assert!(self.result.is_none());
        loop {
            let progress = self
                .conversation
                .handle_connection(elapsed_millis, self.active.clone());
            for frame in self.conversation.outgoing.take() {
                self.replies.receive(&frame);
            }
            match progress {
                Ok(Progress::Await(missing)) => {
                    assert!(missing > 0);
                    return;
                }
                Ok(Progress::Answered) => {}
                Ok(Progress::Unsigned(reason)) => self.reports.push(reason),
                Ok(Progress::Done) => {
                    self.result = Some(Ok(()));
                    return;
                }
                Err(error) => {
                    self.result = Some(Err(error));
                    return;
                }
            }
        }
    }

    fn send(&mut self, command: u8, payload: &[u8]) {
        let mut stream = Outgoing::new();
        write_packet(&mut stream, command, payload).unwrap();
        for frame in stream.take() {
            self.conversation.incoming.receive(&frame);
        }
        self.run(0);
    }

    fn reply(&mut self) -> Vec<u8> {
        read_packet(&mut self.replies).unwrap().unwrap()
    }

    fn is_silent(&mut self) -> bool {
        read_packet(&mut self.replies).is_err()
    }

    fn negotiate(&mut self, version: u32, actions: u32, protocol: u32) -> Vec<u8> {
        let mut options = Vec::new();
        options.extend_from_slice(&version.to_be_bytes());
        options.extend_from_slice(&actions.to_be_bytes());
        options.extend_from_slice(&protocol.to_be_bytes());
        self.send(b'O', &options);
        self.reply()
    }
}

fn client() -> Client {
    Client::new(Some(config_of("example.com", "test")))
}

#[test]
fn malformed_header_becomes_message_error() {
    let mut state = MessageState::default();
    receive_header(&mut state, b"From: a@example.com");
    assert!(state.error.is_some());
}

#[test]
fn header_limits_fail_the_message_without_growing_state() {
    let mut state = MessageState::default();
    let value = vec![b'a'; MAX_HEADER_BYTES];
    let mut packet = b"Subject\0".to_vec();
    packet.extend_from_slice(&value);
    packet.push(0);
    receive_header(&mut state, &packet);
    assert!(state.error.is_some());
    assert!(state.headers.is_empty());
}

#[test]
fn complete_milter_exchange_adds_signature() {
    let mut client = client();
    let options = client.negotiate(6, ACTION_ADD_HEADER | ACTION_CHANGE_HEADER, 0);
    assert_eq!(options[0], b'O');

    // Macro definitions have no response; the next packet read must be MAIL's response.
    client.send(b'D', b"M{i}\0ABC123\0");
    client.send(b'M', b"<alice@example.com>\0");
    assert_eq!(client.reply(), vec![b'c']);

    for (name, value) in [
        (b"From".as_slice(), b"Alice <alice@example.com>".as_slice()),
        (b"Subject".as_slice(), b"milter test".as_slice()),
    ] {
        let mut header = Vec::new();
        header.extend_from_slice(name);
        header.push(0);
        header.extend_from_slice(value);
        header.push(0);
        client.send(b'L', &header);
        assert_eq!(client.reply(), vec![b'c']);
    }
    client.send(b'N', &[]);
    assert_eq!(client.reply(), vec![b'c']);
    client.send(b'B', b"hello\r\n");
    assert_eq!(client.reply(), vec![b'c']);
    client.send(b'E', &[]);
    let action = client.reply();
    assert_eq!(action[0], b'i');
    assert!(action
        .windows(b"DKIM-Signature".len())
        .any(|window| window == b"DKIM-Signature"));
    assert_eq!(client.reply(), vec![b'a']);

    client.send(b'Q', &[]);
    assert_eq!(client.result, Some(Ok(())));
}

#[test]
fn negotiates_no_reply_flags_and_still_replies_at_eom() {
    let mut client = client();
    let negotiation = client.negotiate(6, ACTION_ADD_HEADER, SUPPORTED_NO_REPLY);
    assert_eq!(
        u32::from_be_bytes(negotiation[9..13].try_into().unwrap()),
        SUPPORTED_NO_REPLY
    );

    for (command, payload) in [
        (b'C', b"localhost\0".as_slice()),
        (b'H', b"localhost\0".as_slice()),
        (b'U', b"unknown\0".as_slice()),
        (b'M', b"<alice@example.com>\0".as_slice()),
        (b'R', b"<bob@example.net>\0".as_slice()),
        (b'T', b"".as_slice()),
        (b'L', b"From\0alice@example.com\0".as_slice()),
        (b'N', b"".as_slice()),
        (b'B', b"body\r\n".as_slice()),
    ] {
        client.send(command, payload);
    }
    client.send(b'E', &[]);
    assert_eq!(client.reply()[0], b'h');
    assert_eq!(client.reply(), vec![b'a']);
    client.send(b'Q', &[]);
    assert_eq!(client.result, Some(Ok(())));
}

#[test]
fn no_reply_malformed_message_fails_open_and_connection_is_reusable() {
    let mut client = client();
    let options = client.negotiate(6, ACTION_ADD_HEADER, SUPPORTED_NO_REPLY);
    assert_eq!(options[0], b'O');

    client.send(b'M', b"<alice@example.com>\0");
    client.send(b'L', b"malformed-without-nuls");
    client.send(b'B', b"body\r\n");
    client.send(b'E', &[]);
    assert_eq!(client.reply(), vec![b'a']);

    client.send(b'M', b"<alice@example.com>\0");
    client.send(b'L', b"From\0alice@example.com\0");
    client.send(b'B', b"body\r\n");
    client.send(b'E', &[]);
    assert_eq!(client.reply()[0], b'h');
    assert_eq!(client.reply(), vec![b'a']);

    client.send(b'Q', &[]);
    assert_eq!(client.result, Some(Ok(())));
    assert_eq!(client.reports, ["malformed milter header packet"]);
}

#[test]
fn old_protocol_and_partial_offers_keep_required_replies() {
    for (version, offered, expected) in [
        (5u32, SUPPORTED_NO_REPLY, 0u32),
        (6u32, PROTOCOL_NR_HEADER, PROTOCOL_NR_HEADER),
    ] {
        let mut client = client();
        let negotiation = client.negotiate(version, ACTION_ADD_HEADER, offered);
        assert_eq!(
            u32::from_be_bytes(negotiation[9..13].try_into().unwrap()),
            expected
        );

        client.send(b'M', b"<alice@example.com>\0");
        assert_eq!(client.reply(), vec![b'c']);
        client.send(b'L', b"From\0alice@example.com\0");
        if expected == 0 {
            assert_eq!(client.reply(), vec![b'c']);
        }
        client.send(b'B', b"body\r\n");
        assert_eq!(client.reply(), vec![b'c']);
        client.send(b'E', &[]);
        assert_eq!(client.reply()[0], b'h');
        assert_eq!(client.reply(), vec![b'a']);
        client.send(b'Q', &[]);
        assert_eq!(client.result, Some(Ok(())));
    }
}

#[test]
fn abort_resets_state_and_connection_can_be_reused() {
    let mut client = client();
    client.negotiate(6, ACTION_ADD_HEADER, 0);

    client.send(b'M', b"<bad@example.com>\0");
    client.reply();
    client.send(b'L', b"From\0broken\0");
    client.reply();
    client.send(b'A', &[]);

    client.send(b'M', b"<alice@example.com>\0");
    assert_eq!(client.reply(), vec![b'c']);
    client.send(b'L', b"From\0alice@example.com\0");
    client.reply();
    client.send(b'B', b"ok\r\n");
    client.reply();
    client.send(b'E', &[]);
    assert_eq!(client.reply()[0], b'h');
    assert_eq!(client.reply(), vec![b'a']);
    client.send(b'Q', &[]);
    assert_eq!(client.result, Some(Ok(())));
}

#[test]
fn negotiation_stays_within_the_offer() {
    let mut client = client();
    assert_eq!(
        client.negotiate(7, 0xffff_ffff, 0xffff_ffff),
        b"O\0\0\0\x06\0\0\0\x11\0\x0f\xf0\x80"
    );
    assert_eq!(
        client.negotiate(2, 0x0000_0010, 0xffff_ffff),
        b"O\0\0\0\x02\0\0\0\x10\0\0\0\0"
    );
    assert_eq!(client.conversation.session.actions, 0x10);
    assert_eq!(client.conversation.session.protocol, 0);
    assert_eq!(
        client.negotiate(6, 0x0000_0006, 0x0000_1001),
        b"O\0\0\0\x06\0\0\0\0\0\0\x10\0"
    );
}

#[test]
fn flags_of_all_commands_are_supported() {
    let mut flags = 0;
    for command in 0..=255u8 {
        let flag = no_reply_flag(command);
        assert_eq!(flags & flag, 0);
        flags |= flag;
    }
    assert_eq!(flags, SUPPORTED_NO_REPLY);
    assert_eq!(SUPPORTED_ACTIONS, ACTION_ADD_HEADER | ACTION_CHANGE_HEADER);
}

#[test]
fn messages_that_cannot_be_signed_are_only_accepted() {
    for (actions, packets, reason) in [
        (
            1,
            vec![],
            "end of message received before message start",
        ),
        (
            1,
            vec![(b'B', b"x".as_slice())],
            "body received before message start",
        ),
        (
            1,
            vec![
                (b'B', b"x\r\n".as_slice()),
                (b'L', b"From\0alice@example.com\0"),
            ],
            "body received before message start",
        ),
        (
            1,
            vec![
                (b'B', b"x\r\n".as_slice()),
                (b'L', b"From\0alice@example.com\0"),
                (b'B', b"y\r\n"),
                (b'N', b""),
            ],
            "body received before message start",
        ),
        (
            0,
            vec![(b'M', b"".as_slice()), (b'L', b"From\0a@example.com\0")],
            "MTA did not grant permission to add headers",
        ),
        (
            1,
            vec![(b'M', b"".as_slice())],
            "message must contain exactly one From header",
        ),
        (
            1,
            vec![
                (b'L', b"From\0a@example.com\0".as_slice()),
                (b'L', b"From\0b@example.com\0"),
            ],
            "message must contain exactly one From header",
        ),
        (
            1,
            vec![(b'L', b"From\0nobody\0".as_slice())],
            "cannot extract a single From domain",
        ),
        (
            1,
            vec![(b'L', b"From\0a@secret.example\0".as_slice())],
            "From domain does not match configured domain",
        ),
        (
            1,
            vec![(b'L', b"From\0a@example.com".as_slice())],
            "malformed milter header value",
        ),
        (
            1,
            vec![(b'L', b"From\0a\0b\0".as_slice())],
            "malformed milter header value",
        ),
        (
            1,
            vec![
                (b'L', b"Fr om\0a\0".as_slice()),
                (b'L', b"From"),
                (b'B', b"x"),
            ],
            "invalid header supplied by MTA",
        ),
    ] {
        let mut client = client();
        client.negotiate(6, actions, SUPPORTED_NO_REPLY);
        for (command, payload) in packets {
            client.send(command, payload);
        }
        client.send(b'E', b"");
        assert_eq!(client.reply(), b"a");
        assert!(client.is_silent());
        assert_eq!(client.reports, [reason]);
        assert!(client.conversation.session.message.config.is_none());
        assert!(client.conversation.session.message.error.is_none());
    }
}

#[test]
fn messages_keep_the_configuration_that_they_began_with() {
    let mut client = Client::new(Some(config_of("example.com", "one")));
    client.negotiate(6, ACTION_ADD_HEADER, SUPPORTED_NO_REPLY);
    client.send(b'M', b"");
    client.send(b'L', b"From\0alice@example.com\0");
    client.active = Some(config_of("example.com", "two"));
    client.send(b'B', b"body\r\n");
    client.send(b'E', b"");
    let first = String::from_utf8(client.reply()).unwrap();
    assert!(first.starts_with("hDKIM-Signature\0v=1; "));
    assert!(first.ends_with('\0'));
    assert!(first.contains("s=one;"));
    assert_eq!(client.reply(), b"a");

    client.send(b'L', b"From\0alice@example.com\0");
    client.send(b'E', b"");
    assert!(String::from_utf8(client.reply()).unwrap().contains("s=two;"));
    assert_eq!(client.reply(), b"a");
}

#[test]
fn configuration_is_read_only_where_a_message_begins() {
    let mut client = Client::new(None);
    client.negotiate(6, ACTION_ADD_HEADER, SUPPORTED_NO_REPLY);
    for command in *b"CHRTNUDAB" {
        client.send(command, b"");
    }
    client.send(b'M', b"");
    assert_eq!(
        client.result,
        Some(Err("configuration lock poisoned".to_owned()))
    );
    let mut client = Client::new(None);
    client.send(b'L', b"From\0a@example.com\0");
    assert_eq!(
        client.result,
        Some(Err("configuration lock poisoned".to_owned()))
    );
}

#[test]
fn connections_are_given_up_on_wrong_packets() {
    for (command, payload, error) in [
        (b'O', b"short".as_slice(), "invalid option negotiation packet"),
        (b'x', b"", "unsupported milter command 0x78"),
        (0x0a, b"", "unsupported milter command 0x0a"),
        (0xff, b"", "unsupported milter command 0xff"),
    ] {
        let mut client = client();
        client.send(command, payload);
        assert_eq!(client.result, Some(Err(error.to_owned())));
        assert!(client.is_silent());
    }
    let mut session = Session::new();
    match session.handle_packet(b"", None, &mut Outgoing::new()) {
        Ok(_) => panic!("no command"),
        Err(error) => assert_eq!(error, "empty milter packet"),
    }
}

#[test]
fn connections_end() {
    let mut quit = client();
    quit.send(b'K', b"");
    assert_eq!(quit.result, Some(Ok(())));

    let mut closed = client();
    closed.conversation.incoming.close();
    closed.run(0);
    assert_eq!(closed.result, Some(Ok(())));

    let mut cut_off = client();
    cut_off.conversation.incoming.receive(b"\0\0\0\x05B");
    cut_off.conversation.incoming.close();
    cut_off.run(0);
    assert_eq!(
        cut_off.result,
        Some(Err("failed to fill whole buffer".to_owned()))
    );

    let mut bad = client();
    bad.conversation.incoming.receive(b"\0\0\0\0");
    bad.run(0);
    assert_eq!(
        bad.result,
        Some(Err("invalid milter packet length".to_owned()))
    );

    let mut in_time = client();
    in_time.conversation.incoming.receive(b"\0\0\0\x01Q");
    in_time.run(59_999);
    assert_eq!(in_time.result, Some(Ok(())));
    assert!(!connection_expired(CONNECTION_MILLIS - 1));
    assert!(connection_expired(CONNECTION_MILLIS));

    let mut late = client();
    late.conversation.incoming.receive(b"\0\0\0\x01Q");
    late.run(60_000);
    assert_eq!(
        late.result,
        Some(Err("milter connection lifetime exceeded".to_owned()))
    );
}

#[test]
fn header_counts_have_limits() {
    let mut state = MessageState::default();
    for _ in 0..MAX_HEADERS {
        receive_header(&mut state, b"A\0b\0");
    }
    assert!(state.error.is_none());
    assert_eq!(state.headers.len(), MAX_HEADERS);
    assert_eq!(state.header_bytes, 2 * MAX_HEADERS);
    receive_header(&mut state, b"A\0b\0");
    assert_eq!(
        state.error.as_deref(),
        Some("message header limit exceeded")
    );
    receive_header(&mut state, b"A\0b\0");
    assert_eq!(state.headers.len(), MAX_HEADERS);
    state.fail("later".to_owned());
    assert_eq!(
        state.error.as_deref(),
        Some("message header limit exceeded")
    );

    let mut exact = MessageState::default();
    let mut packet = b"Subject\0".to_vec();
    packet.extend_from_slice(&vec![b'a'; MAX_HEADER_BYTES - 7]);
    packet.push(0);
    receive_header(&mut exact, &packet);
    assert!(exact.error.is_none());
    assert_eq!(exact.header_bytes, MAX_HEADER_BYTES);
    receive_header(&mut exact, b"A\0\0");
    assert!(exact.error.is_some());
    assert_eq!(exact.headers.len(), 1);
}

#[test]
fn header_packets_are_read() {
    let mut state = MessageState::default();
    receive_header(&mut state, b"Subject\0 hello\r\n world\0");
    receive_header(&mut state, b"X\0\0");
    assert!(state.error.is_none());
    let read: Vec<&Header> = state.headers.iter().collect();
    assert_eq!(read[0].name, b"Subject");
    assert_eq!(read[0].value, b" hello\r\n world");
    assert_eq!(read[1].name, b"X");
    assert_eq!(read[1].value, b"");
}

#[test]
fn body_parts_are_joined() {
    let config = config_of("example.com", "test");
    let mut hashes = Vec::new();
    for parts in [vec![b"a b\r\n".as_slice()], vec![b"a ", b" b\r", b"\n\r\n"]] {
        let mut state = MessageState::default();
        state.begin(config.clone());
        for part in parts {
            state.receive_body(part);
        }
        assert!(state.error.is_none());
        hashes.push(state.body.finish());
    }
    assert_eq!(hashes[0], hashes[1]);
}

#[test]
fn ends_of_messages_are_answered() {
    let mut stream = Outgoing::new();
    assert!(matches!(
        accept_message(&mut stream, 0x11, Ok("v".to_owned())),
        Ok(Step::Continue)
    ));
    assert_eq!(
        stream.take(),
        [
            b"\0\0\0\x16i\0\0\0\0DKIM-Signature\0v\0".to_vec(),
            b"\0\0\0\x01a".to_vec()
        ]
    );
    assert!(matches!(
        accept_message(&mut stream, 0x01, Ok("v".to_owned())),
        Ok(Step::Continue)
    ));
    assert_eq!(
        stream.take(),
        [
            b"\0\0\0\x12hDKIM-Signature\0v\0".to_vec(),
            b"\0\0\0\x01a".to_vec()
        ]
    );
    match accept_message(&mut stream, 0x11, Err("why".to_owned())) {
        Ok(Step::Unsigned(reason)) => assert_eq!(reason, "why"),
        _ => panic!("not accepted"),
    }
    assert_eq!(stream.take(), [b"\0\0\0\x01a".to_vec()]);
}

#[test]
fn early_bodies_are_held_against_the_message() {
    let mut client = client();
    let mut options = vec![b'O'];
    options.extend_from_slice(b"\0\0\0\x06\0\0\0\x01\0\0\0\0");
    assert_eq!(client.negotiate(6, 1, 0), options);
    client.send(b'B', b"x\r\n");
    assert_eq!(client.reply(), b"c");
    client.send(b'L', b"From\0alice@example.com\0");
    assert_eq!(client.reply(), b"c");
    client.send(b'E', b"");
    assert_eq!(client.reply(), b"a");
    assert!(client.is_silent());

    // A sender begins a message afresh.
    client.send(b'B', b"x\r\n");
    assert_eq!(client.reply(), b"c");
    client.send(b'M', b"");
    assert_eq!(client.reply(), b"c");
    client.send(b'L', b"From\0alice@example.com\0");
    assert_eq!(client.reply(), b"c");
    client.send(b'E', b"");
    assert_eq!(client.reply()[0], b'h');
    assert_eq!(client.reply(), b"a");
    client.send(b'Q', b"");
    assert_eq!(client.result, Some(Ok(())));
    assert_eq!(client.reports, ["body received before message start"]);
}

#[test]
fn reports_depend_on_the_lack_alone() {
    let mut reports = Vec::new();
    for (domain, from, body) in [
        ("example.com", b"From\0a@one.example\0".as_slice(), b"x".as_slice()),
        ("example.org", b"From\0Bob <b@two.example>\0", b"y\r\n"),
    ] {
        let mut client = Client::new(Some(config_of(domain, "test")));
        client.negotiate(6, ACTION_ADD_HEADER, SUPPORTED_NO_REPLY);
        client.send(b'M', b"");
        client.send(b'L', from);
        client.send(b'B', body);
        client.send(b'E', b"");
        assert_eq!(client.reply(), b"a");
        reports.append(&mut client.reports);
    }
    assert_eq!(reports.len(), 2);
    assert_eq!(reports[0], reports[1]);
}
