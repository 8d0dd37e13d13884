//! The milter protocol: what is answered to each packet of the MTA.

use std::sync::Arc;
use vstd::prelude::*;
use vstd::slice::*;
use vstd::utf8::*;

use crate::address::from_domain_of;
use crate::body::relaxed_body;
use crate::config::{text_result, RuntimeConfig};
use crate::crypto::sha256;
use crate::dkim::{all_named, is_outcome, is_signing_failure, may_sign, refusal, sign};
use crate::frame::{
    after_reading, fits, format_number, frame, lemma_number, number_bytes, number_of, parse_number,
    read_packet_into, reading, write_packet, write_status, Incoming, IncomingView, Outgoing,
    ReadError, Reading, MAX_PACKET,
};
use crate::header::{is_header, is_name_byte, HeaderView};
use crate::message::{
    begun, begun_by_header, field_bytes, header_packet, law_header_packets_are_read,
    law_limits_hold, no_message, receive_header, shared_config, MessageState, MessageView,
};
use crate::text::lowered;

pub use crate::frame::fuzz_milter_frame;
pub use crate::service::serve;

verus! {

pub const ACTION_ADD_HEADER: u32 = 0x0000_0001;

pub const ACTION_CHANGE_HEADER: u32 = 0x0000_0010;

/// The actions that are asked for.
pub const SUPPORTED_ACTIONS: u32 = 0x0000_0011;

pub const PROTOCOL_NR_HEADER: u32 = 0x0000_0080;

pub const PROTOCOL_NR_CONNECT: u32 = 0x0000_1000;

pub const PROTOCOL_NR_HELO: u32 = 0x0000_2000;

pub const PROTOCOL_NR_MAIL: u32 = 0x0000_4000;

pub const PROTOCOL_NR_RCPT: u32 = 0x0000_8000;

pub const PROTOCOL_NR_DATA: u32 = 0x0001_0000;

pub const PROTOCOL_NR_UNKNOWN: u32 = 0x0002_0000;

pub const PROTOCOL_NR_EOH: u32 = 0x0004_0000;

pub const PROTOCOL_NR_BODY: u32 = 0x0008_0000;

/// All packets that may go without a reply.
pub const SUPPORTED_NO_REPLY: u32 = 0x000f_f080;

// Commands of the MTA, by their letters.

/// `A`: The message is given up.
pub const COMMAND_ABORT: u8 = 0x41;

/// `B`: A part of the body.
pub const COMMAND_BODY: u8 = 0x42;

/// `C`: A client has connected.
pub const COMMAND_CONNECT: u8 = 0x43;

/// `D`: Macros for the command that follows.
pub const COMMAND_MACRO: u8 = 0x44;

/// `E`: The end of the message.
pub const COMMAND_END: u8 = 0x45;

/// `H`: The client greets.
pub const COMMAND_HELO: u8 = 0x48;

/// `K`: The connection is done, another may follow.
pub const COMMAND_QUIT_NEW: u8 = 0x4b;

/// `L`: A header field.
pub const COMMAND_HEADER: u8 = 0x4c;

/// `M`: The sender, with which a message begins.
pub const COMMAND_MAIL: u8 = 0x4d;

/// `N`: The end of the headers.
pub const COMMAND_EOH: u8 = 0x4e;

/// `O`: The start of the negotiation, and its answer.
pub const COMMAND_OPTIONS: u8 = 0x4f;

/// `Q`: The connection is done.
pub const COMMAND_QUIT: u8 = 0x51;

/// `R`: A recipient.
pub const COMMAND_RCPT: u8 = 0x52;

/// `T`: The start of the data.
pub const COMMAND_DATA: u8 = 0x54;

/// `U`: A command of the client that the MTA does not know.
pub const COMMAND_UNKNOWN: u8 = 0x55;

// Replies, by their letters.

/// `a`: Deliver the message.
pub const REPLY_ACCEPT: u8 = 0x61;

/// `c`: Go on.
pub const REPLY_CONTINUE: u8 = 0x63;

/// `h`: Add a header after the others.
pub const REPLY_ADD: u8 = 0x68;

/// `i`: Insert a header at a place.
pub const REPLY_INSERT: u8 = 0x69;

/// The newest version of the protocol that is spoken.
pub const NEWEST_VERSION: u32 = 6;

/// The option that lets a command go without a reply; 0 where there is none.
pub open spec fn no_reply_of(command: u8) -> u32 {
    if command == COMMAND_CONNECT {
        PROTOCOL_NR_CONNECT
    } else if command == COMMAND_HELO {
        PROTOCOL_NR_HELO
    } else if command == COMMAND_MAIL {
        PROTOCOL_NR_MAIL
    } else if command == COMMAND_RCPT {
        PROTOCOL_NR_RCPT
    } else if command == COMMAND_DATA {
        PROTOCOL_NR_DATA
    } else if command == COMMAND_UNKNOWN {
        PROTOCOL_NR_UNKNOWN
    } else if command == COMMAND_HEADER {
        PROTOCOL_NR_HEADER
    } else if command == COMMAND_EOH {
        PROTOCOL_NR_EOH
    } else if command == COMMAND_BODY {
        PROTOCOL_NR_BODY
    } else {
        0
    }
}

pub fn no_reply_flag(command: u8) -> (r: u32)
    ensures
        r == no_reply_of(command),
{
    if command == COMMAND_CONNECT {
        PROTOCOL_NR_CONNECT
    } else if command == COMMAND_HELO {
        PROTOCOL_NR_HELO
    } else if command == COMMAND_MAIL {
        PROTOCOL_NR_MAIL
    } else if command == COMMAND_RCPT {
        PROTOCOL_NR_RCPT
    } else if command == COMMAND_DATA {
        PROTOCOL_NR_DATA
    } else if command == COMMAND_UNKNOWN {
        PROTOCOL_NR_UNKNOWN
    } else if command == COMMAND_HEADER {
        PROTOCOL_NR_HEADER
    } else if command == COMMAND_EOH {
        PROTOCOL_NR_EOH
    } else if command == COMMAND_BODY {
        PROTOCOL_NR_BODY
    } else {
        0
    }
}

/// The reply to a command that changes nothing for the MTA: none where it was agreed to send
/// none, else a packet that says to go on.
pub open spec fn continue_replies(protocol: u32, command: u8) -> Seq<Seq<u8>> {
    if protocol & no_reply_of(command) == 0 {
        seq![frame(REPLY_CONTINUE, Seq::empty())]
    } else {
        Seq::empty()
    }
}

pub fn write_continue_if_needed(stream: &mut Outgoing, protocol: u32, command: u8)
    ensures
        final(stream)@ == old(stream)@ + continue_replies(protocol, command),
{
    if protocol & no_reply_flag(command) == 0 {
        write_status(stream, REPLY_CONTINUE);
    }
    assert(stream@ =~= old(stream)@ + continue_replies(protocol, command));
}

// The end of a message.

/// What a packet comes to, beside the replies.
pub enum NextView {
    Continue,
    /// A message was accepted without a signature, for this reason.
    Unsigned(Seq<char>),
    /// The MTA is done.
    Close,
    /// The connection is given up.
    Fail(Seq<char>),
}

pub enum Step {
    Continue,
    /// A message was accepted without a signature, for this reason.
    Unsigned(String),
    /// The MTA is done.
    Close,
}

pub open spec fn next_view(r: Result<Step, String>) -> NextView {
    match r {
        Ok(Step::Continue) => NextView::Continue,
        Ok(Step::Unsigned(reason)) => NextView::Unsigned(reason@),
        Ok(Step::Close) => NextView::Close,
        Err(error) => NextView::Fail(error@),
    }
}

/// A name and a value, each with a zero byte behind it.
pub open spec fn field_payload(value: Seq<char>) -> Seq<u8> {
    encode_utf8("DKIM-Signature"@).push(0) + encode_utf8(value).push(0)
}

/// The command that adds the signature header, and its payload: before all other headers if the
/// MTA lets headers be changed, else after them.
pub open spec fn addition(actions: u32, value: Seq<char>) -> (u8, Seq<u8>) {
    if actions & ACTION_CHANGE_HEADER != 0 {
        (REPLY_INSERT, number_bytes(0) + field_payload(value))
    } else {
        (REPLY_ADD, field_payload(value))
    }
}

/// The reason not to sign a message that is known before signing.
pub open spec fn early_reason(message: MessageView, actions: u32) -> Option<Seq<char>> {
    if message.error is Some {
        message.error
    } else if message.config is None {
        Some("end of message received before message start"@)
    } else if actions & SUPPORTED_ACTIONS == 0 {
        Some("MTA did not grant permission to add headers"@)
    } else {
        None
    }
}

/// Whether signing a message may give this.
pub open spec fn is_message_outcome(
    message: MessageView,
    actions: u32,
    outcome: Result<Seq<char>, Seq<char>>,
) -> bool {
    match early_reason(message, actions) {
        Some(why) => outcome == Err::<Seq<char>, Seq<char>>(why),
        None => is_outcome(message.config->0, message.headers, message.body_hash(), outcome),
    }
}

/// The replies to the end of a message. Without a signature the message is accepted as it is.
pub open spec fn end_replies(
    actions: u32,
    outcome: Result<Seq<char>, Seq<char>>,
) -> Seq<Seq<u8>> {
    match outcome {
        Ok(value) => {
            let (command, payload) = addition(actions, value);
            if fits(payload) {
                seq![frame(command, payload), frame(REPLY_ACCEPT, Seq::empty())]
            } else {
                Seq::empty()
            }
        },
        Err(_) => seq![frame(REPLY_ACCEPT, Seq::empty())],
    }
}

pub open spec fn end_next(actions: u32, outcome: Result<Seq<char>, Seq<char>>) -> NextView {
    match outcome {
        Ok(value) => if fits(addition(actions, value).1) {
            NextView::Continue
        } else {
            NextView::Fail("milter response is too large"@)
        },
        Err(why) => NextView::Unsigned(why),
    }
}

/// Answers the end of a message, given its signature or the reason why it has none.
pub fn accept_message(stream: &mut Outgoing, actions: u32, signed: Result<String, String>) -> (r:
    Result<Step, String>)
    ensures
        final(stream)@ == old(stream)@ + end_replies(actions, text_result(signed)),
        next_view(r) == end_next(actions, text_result(signed)),
{
    let ghost outcome = text_result(signed);
    let value = match signed {
        Ok(value) => value,
        Err(reason) => {
            write_status(stream, REPLY_ACCEPT);
            assert(stream@ =~= old(stream)@ + end_replies(actions, outcome));
            return Ok(Step::Unsigned(reason));
        },
    };
    let mut payload: Vec<u8> = Vec::new();
    let mut command: u8 = REPLY_ADD;
    if actions & ACTION_CHANGE_HEADER != 0 {
        command = REPLY_INSERT;
        payload.extend_from_slice(&format_number(0));
    }
    payload.extend_from_slice("DKIM-Signature".as_bytes());
    payload.push(0);
    payload.extend_from_slice(value.as_str().as_bytes());
    payload.push(0);
    assert(payload@ =~= addition(actions, value@).1);
    match write_packet(stream, command, payload.as_slice()) {
        Ok(()) => {},
        Err(error) => {
            assert(stream@ =~= old(stream)@ + end_replies(actions, outcome));
            return Err(error);
        },
    }
    write_status(stream, REPLY_ACCEPT);
    assert(stream@ =~= old(stream)@ + end_replies(actions, outcome));
    Ok(Step::Continue)
}

/// Whether a message with these replies and this end may have come to its end.
pub open spec fn may_end(
    message: MessageView,
    actions: u32,
    before: Seq<Seq<u8>>,
    after: Seq<Seq<u8>>,
    next: NextView,
) -> bool {
    exists|outcome: Result<Seq<char>, Seq<char>>|
        {
            &&& #[trigger] is_message_outcome(message, actions, outcome)
            &&& after == before + end_replies(actions, outcome)
            &&& next == end_next(actions, outcome)
        }
}

/// Signs a message, if it can be signed, and answers its end.
pub fn finish_message(stream: &mut Outgoing, state: MessageState, actions: u32) -> (r: Result<
    Step,
    String,
>)
    requires
        state.wf(),
    ensures
        may_end(state@, actions, old(stream)@, final(stream)@, next_view(r)),
{
    let ghost message = state@;
    let MessageState { config, headers, header_bytes: _, body, error } = state;
    let signed = match error {
        Some(error) => Err(error),
        None => match config {
            None => Err("end of message received before message start".to_owned()),
            Some(config) => if actions & SUPPORTED_ACTIONS == 0 {
                Err("MTA did not grant permission to add headers".to_owned())
            } else {
                sign(&config, headers.as_slice(), body.finish())
            },
        },
    };
    assert(is_message_outcome(message, actions, text_result(signed)));
    accept_message(stream, actions, signed)
}

// The session.

/// What a connection remembers.
pub struct Session {
    pub message: MessageState,
    /// The actions that were agreed on.
    pub actions: u32,
    /// The options that were agreed on.
    pub protocol: u32,
}

pub struct SessionView {
    pub message: MessageView,
    pub actions: u32,
    pub protocol: u32,
}

impl View for Session {
    type V = SessionView;

    open spec fn view(&self) -> SessionView {
        SessionView {
            message: self.message@,
            actions: self.actions,
            protocol: self.protocol,
        }
    }
}

/// A connection on which nothing was said yet.
pub open spec fn new_session() -> SessionView {
    SessionView { message: no_message(), actions: 0, protocol: 0 }
}

/// What is agreed on: the version, the actions and the options. All are within what was offered
/// and what is supported; before version 6 every packet gets its reply.
pub open spec fn agreed(offer: Seq<u8>) -> (u32, u32, u32) {
    let offered = number_of(offer.take(4));
    let version = if offered < NEWEST_VERSION {
        offered
    } else {
        NEWEST_VERSION
    };
    (
        version,
        number_of(offer.subrange(4, 8)) & SUPPORTED_ACTIONS,
        if version >= 6 {
            number_of(offer.subrange(8, 12)) & SUPPORTED_NO_REPLY
        } else {
            0
        },
    )
}

pub open spec fn agreement_payload(agreement: (u32, u32, u32)) -> Seq<u8> {
    number_bytes(agreement.0) + number_bytes(agreement.1) + number_bytes(agreement.2)
}

/// A digit of a hexadecimal number.
pub open spec fn hex_digit(d: u8) -> char {
    if d < 10 {
        (48 + d) as char
    } else {
        (87 + d) as char
    }
}

pub open spec fn unsupported_text(command: u8) -> Seq<char> {
    "unsupported milter command 0x"@ + seq![hex_digit(command / 16), hex_digit(command % 16)]
}

/// The commands that are only answered.
pub open spec fn is_passing(command: u8) -> bool {
    ||| command == COMMAND_CONNECT
    ||| command == COMMAND_HELO
    ||| command == COMMAND_RCPT
    ||| command == COMMAND_DATA
    ||| command == COMMAND_EOH
    ||| command == COMMAND_UNKNOWN
}

/// What a packet comes to.
pub struct StepView {
    pub session: SessionView,
    pub replies: Seq<Seq<u8>>,
    pub next: NextView,
}

impl SessionView {
    pub open spec fn fails(self, error: Seq<char>) -> StepView {
        StepView { session: self, replies: Seq::empty(), next: NextView::Fail(error) }
    }

    pub open spec fn silent(self) -> StepView {
        StepView { session: self, replies: Seq::empty(), next: NextView::Continue }
    }

    pub open spec fn with_message(self, message: MessageView) -> SessionView {
        SessionView { message, ..self }
    }

    /// The step that answers a command, if an answer is wanted.
    pub open spec fn answers(self, command: u8) -> StepView {
        StepView {
            session: self,
            replies: continue_replies(self.protocol, command),
            next: NextView::Continue,
        }
    }

    /// What a packet comes to. A message begins with the active configuration, where it can be
    /// read; `outcome` is what signing gives where the message ends.
    pub open spec fn step(
        self,
        packet: Seq<u8>,
        active: Option<RuntimeConfig>,
        outcome: Result<Seq<char>, Seq<char>>,
    ) -> StepView {
        let command = packet[0];
        let payload = packet.skip(1);
        if packet.len() == 0 {
            self.fails("empty milter packet"@)
        } else if command == COMMAND_OPTIONS {
            if payload.len() != 12 {
                self.fails("invalid option negotiation packet"@)
            } else {
                let agreement = agreed(payload);
                StepView {
                    session: SessionView {
                        actions: agreement.1,
                        protocol: agreement.2,
                        ..self
                    },
                    replies: seq![frame(COMMAND_OPTIONS, agreement_payload(agreement))],
                    next: NextView::Continue,
                }
            }
        } else if command == COMMAND_MAIL {
            match active {
                None => self.fails("configuration lock poisoned"@),
                Some(config) => self.with_message(begun(config)).answers(command),
            }
        } else if command == COMMAND_HEADER {
            if self.message.config is None {
                match active {
                    None => self.fails("configuration lock poisoned"@),
                    Some(config) => self.with_message(
                        begun_by_header(config, self.message).with_header(payload),
                    ).answers(command),
                }
            } else {
                self.with_message(self.message.with_header(payload)).answers(command)
            }
        } else if command == COMMAND_BODY {
            self.with_message(self.message.with_body(payload)).answers(command)
        } else if command == COMMAND_END {
            StepView {
                session: self.with_message(no_message()),
                replies: end_replies(self.actions, outcome),
                next: end_next(self.actions, outcome),
            }
        } else if command == COMMAND_ABORT {
            self.with_message(no_message()).silent()
        } else if command == COMMAND_QUIT || command == COMMAND_QUIT_NEW {
            StepView { session: self, replies: Seq::empty(), next: NextView::Close }
        } else if command == COMMAND_MACRO {
            self.silent()
        } else if is_passing(command) {
            self.answers(command)
        } else {
            self.fails(unsupported_text(command))
        }
    }

    /// Whether a packet may come to this.
    pub open spec fn may_step(
        self,
        packet: Seq<u8>,
        active: Option<RuntimeConfig>,
        before: Seq<Seq<u8>>,
        session: SessionView,
        after: Seq<Seq<u8>>,
        next: NextView,
    ) -> bool {
        exists|outcome: Result<Seq<char>, Seq<char>>|
            {
                let step = self.step(packet, active, outcome);
                &&& #[trigger] is_message_outcome(self.message, self.actions, outcome)
                &&& session == step.session
                &&& after == before + step.replies
                &&& next == step.next
            }
    }
}

proof fn lemma_outcome_exists(message: MessageView, actions: u32) -> (outcome: Result<
    Seq<char>,
    Seq<char>,
>)
    ensures
        is_message_outcome(message, actions, outcome),
{
    match early_reason(message, actions) {
        Some(why) => Err(why),
        None => match refusal(message.config->0.domain@, message.headers) {
            Some(why) => Err(why),
            None => Err("system clock is before Unix epoch"@),
        },
    }
}

fn hex_char(d: u8) -> (r: char)
    requires
        d < 16,
    ensures
        r == hex_digit(d),
{
    if d < 10 {
        (48 + d) as char
    } else {
        (87 + d) as char
    }
}

fn unsupported(command: u8) -> (r: String)
    ensures
        r@ == unsupported_text(command),
{
    let mut r = "unsupported milter command 0x".to_owned();
    r.push(hex_char(command / 16));
    r.push(hex_char(command % 16));
    assert(r@ =~= unsupported_text(command));
    r
}

impl Session {
    pub open spec fn wf(self) -> bool {
        self.message.wf()
    }

    pub fn new() -> (r: Self)
        ensures
            r@ == new_session(),
            r.wf(),
    {
        Session { message: MessageState::default(), actions: 0, protocol: 0 }
    }

    fn negotiate(&mut self, offer: &[u8], stream: &mut Outgoing)
        requires
            old(self).wf(),
            offer@.len() == 12,
        ensures
            final(self).wf(),
            final(self)@ == (SessionView {
                actions: agreed(offer@).1,
                protocol: agreed(offer@).2,
                ..old(self)@
            }),
            final(stream)@ == old(stream)@.push(
                frame(COMMAND_OPTIONS, agreement_payload(agreed(offer@))),
            ),
    {
        let first = slice_subrange(offer, 0, 4);
        assert(first@ =~= offer@.take(4));
        let offered: u32 = parse_number(first);
        let version: u32 = if offered < NEWEST_VERSION {
            offered
        } else {
            NEWEST_VERSION
        };
        let actions: u32 = parse_number(slice_subrange(offer, 4, 8)) & SUPPORTED_ACTIONS;
        let protocol: u32 = if version >= 6 {
            parse_number(slice_subrange(offer, 8, 12)) & SUPPORTED_NO_REPLY
        } else {
            0
        };
        let mut response: Vec<u8> = Vec::new();
        response.extend_from_slice(&format_number(version));
        response.extend_from_slice(&format_number(actions));
        response.extend_from_slice(&format_number(protocol));
        assert(response@ =~= agreement_payload(agreed(offer@)));
        let _written = write_packet(stream, COMMAND_OPTIONS, response.as_slice());
        self.actions = actions;
        self.protocol = protocol;
    }

    /// Answers a packet. `active` is the configuration for messages that begin now; `None`, if it
    /// cannot be read.
    pub fn handle_packet(
        &mut self,
        packet: &[u8],
        active: Option<Arc<RuntimeConfig>>,
        stream: &mut Outgoing,
    ) -> (r: Result<Step, String>)
        requires
            old(self).wf(),
        ensures
            final(self).wf(),
            old(self)@.may_step(
                packet@,
                shared_config(active),
                old(stream)@,
                final(self)@,
                final(stream)@,
                next_view(r),
            ),
    {
        let ghost outcome = lemma_outcome_exists(self@.message, self@.actions);
        let ghost step = self@.step(packet@, shared_config(active), outcome);
        let len: usize = packet.len();
        if len == 0 {
            assert(stream@ =~= old(stream)@ + step.replies);
            return Err("empty milter packet".to_owned());
        }
        let command: u8 = packet[0];
        let payload = slice_subrange(packet, 1, len);
        assert(payload@ =~= packet@.skip(1));
        if command == COMMAND_OPTIONS {
            if payload.len() != 12 {
                assert(stream@ =~= old(stream)@ + step.replies);
                return Err("invalid option negotiation packet".to_owned());
            }
            self.negotiate(payload, stream);
        } else if command == COMMAND_MAIL {
            let config = match active {
                Some(config) => config,
                None => {
                    assert(stream@ =~= old(stream)@ + step.replies);
                    return Err("configuration lock poisoned".to_owned());
                },
            };
            self.message.begin(config);
            write_continue_if_needed(stream, self.protocol, command);
        } else if command == COMMAND_HEADER {
            if self.message.config.is_none() {
                let config = match active {
                    Some(config) => config,
                    None => {
                        assert(stream@ =~= old(stream)@ + step.replies);
                        return Err("configuration lock poisoned".to_owned());
                    },
                };
                self.message.begin_by_header(config);
            }
            receive_header(&mut self.message, payload);
            write_continue_if_needed(stream, self.protocol, command);
        } else if command == COMMAND_BODY {
            self.message.receive_body(payload);
            write_continue_if_needed(stream, self.protocol, command);
        } else if command == COMMAND_END {
            let mut message = MessageState::default();
            core::mem::swap(&mut self.message, &mut message);
            let r = finish_message(stream, message, self.actions);
            return r;
        } else if command == COMMAND_ABORT {
            self.message = MessageState::default();
        } else if command == COMMAND_QUIT || command == COMMAND_QUIT_NEW {
            assert(stream@ =~= old(stream)@ + step.replies);
            return Ok(Step::Close);
        } else if command == COMMAND_MACRO {
            // Macros belong to the command that follows and get no reply of their own.
        } else if command == COMMAND_CONNECT || command == COMMAND_HELO || command == COMMAND_RCPT
            || command == COMMAND_DATA || command == COMMAND_EOH || command == COMMAND_UNKNOWN {
            write_continue_if_needed(stream, self.protocol, command);
        } else {
            assert(stream@ =~= old(stream)@ + step.replies);
            return Err(unsupported(command));
        }
        assert(self@ == step.session);
        assert(stream@ =~= old(stream)@ + step.replies);
        Ok(Step::Continue)
    }
}

// The connection.

/// A connection to the MTA: what came in, what is to be sent, and what is remembered.
pub struct Conversation {
    pub incoming: Incoming,
    pub outgoing: Outgoing,
    pub session: Session,
    /// Room for one packet, which is used again for each.
    pub packet: Vec<u8>,
}

pub struct ConversationView {
    pub incoming: IncomingView,
    pub outgoing: Seq<Seq<u8>>,
    pub session: SessionView,
}

impl View for Conversation {
    type V = ConversationView;

    open spec fn view(&self) -> ConversationView {
        ConversationView {
            incoming: self.incoming@,
            outgoing: self.outgoing@,
            session: self.session@,
        }
    }
}

/// How long a connection may last, in milliseconds.
pub const CONNECTION_MILLIS: u64 = 60_000;

/// Whether the time of a connection that began so many milliseconds ago is over.
pub fn connection_expired(elapsed_millis: u64) -> (r: bool)
    ensures
        r == (elapsed_millis >= CONNECTION_MILLIS),
{
    elapsed_millis >= CONNECTION_MILLIS
}

/// What is to be done next on a connection.
pub enum Progress {
    /// At most this many bytes are to be received.
    Await(usize),
    /// A packet was answered, and what is to be sent can be sent.
    Answered,
    /// As before, and a message was accepted without a signature, for this reason.
    Unsigned(String),
    /// The connection is done.
    Done,
}

/// Whether a result says what a packet came to.
pub open spec fn tells(r: Result<Progress, String>, next: NextView) -> bool {
    match next {
        NextView::Continue => r == Ok::<Progress, String>(Progress::Answered),
        NextView::Unsigned(reason) => r matches Ok(Progress::Unsigned(text)) && text@ == reason,
        NextView::Close => r == Ok::<Progress, String>(Progress::Done),
        NextView::Fail(error) => r matches Err(text) && text@ == error,
    }
}

/// Whether a connection may come to `after` and this end by one packet.
pub open spec fn may_answer(
    before: ConversationView,
    packet: Seq<u8>,
    active: Option<RuntimeConfig>,
    after: ConversationView,
    next: NextView,
) -> bool {
    &&& after.incoming == after_reading(before.incoming)
    &&& before.session.may_step(
        packet,
        active,
        before.outgoing,
        after.session,
        after.outgoing,
        next,
    )
}

/// The connection after something was read that is not answered.
pub open spec fn read_on(before: ConversationView) -> ConversationView {
    ConversationView { incoming: after_reading(before.incoming), ..before }
}

/// Whether going on with a connection may come to `after` and this result.
pub open spec fn may_handle(
    before: ConversationView,
    elapsed_millis: u64,
    active: Option<RuntimeConfig>,
    after: ConversationView,
    r: Result<Progress, String>,
) -> bool {
    if elapsed_millis >= CONNECTION_MILLIS {
        &&& after == before
        &&& r matches Err(error) && error@ == "milter connection lifetime exceeded"@
    } else {
        match reading(before.incoming) {
            Reading::Packet(packet) => exists|next: NextView| #[trigger]
                tells(r, next) && may_answer(before, packet, active, after, next),
            Reading::Await(n) => {
                &&& after == before
                &&& n <= usize::MAX
                &&& r == Ok::<Progress, String>(Progress::Await(n as usize))
            },
            Reading::End => {
                &&& after == read_on(before)
                &&& r == Ok::<Progress, String>(Progress::Done)
            },
            Reading::CutOff => {
                &&& after == read_on(before)
                &&& r matches Err(error) && error@ == ReadError::UnexpectedEof.text()
            },
            Reading::BadLength => {
                &&& after == read_on(before)
                &&& r matches Err(error) && error@ == ReadError::InvalidData.text()
            },
        }
    }
}

impl Conversation {
    pub open spec fn wf(self) -> bool {
        self.session.wf()
    }

    pub fn new() -> (r: Self)
        ensures
            r.wf(),
            r@ == (ConversationView {
                incoming: IncomingView { pending: Seq::empty(), closed: false },
                outgoing: Seq::empty(),
                session: new_session(),
            }),
    {
        Conversation {
            incoming: Incoming::new(),
            outgoing: Outgoing::new(),
            session: Session::new(),
            packet: Vec::with_capacity(MAX_PACKET),
        }
    }

    /// Goes on with a connection that began so many milliseconds ago: answers the next packet, if
    /// all of it has come in. Once the time of the connection is over it is given up.
    pub fn handle_connection(
        &mut self,
        elapsed_millis: u64,
        active: Option<Arc<RuntimeConfig>>,
    ) -> (r: Result<Progress, String>)
        requires
            old(self).wf(),
        ensures
            final(self).wf(),
            may_handle(old(self)@, elapsed_millis, shared_config(active), final(self)@, r),
    {
        if connection_expired(elapsed_millis) {
            return Err("milter connection lifetime exceeded".to_owned());
        }
        match read_packet_into(&mut self.incoming, &mut self.packet) {
            Ok(Some(())) => {},
            Ok(None) => return Ok(Progress::Done),
            Err(ReadError::WouldBlock { missing }) => return Ok(Progress::Await(missing)),
            Err(error) => return Err(error.message()),
        }
        let step = self.session.handle_packet(self.packet.as_slice(), active, &mut self.outgoing);
        let ghost next = next_view(step);
        assert(may_answer(old(self)@, self.packet@, shared_config(active), self@, next));
        let r = match step {
            Ok(Step::Continue) => Ok(Progress::Answered),
            Ok(Step::Unsigned(reason)) => Ok(Progress::Unsigned(reason)),
            Ok(Step::Close) => Ok(Progress::Done),
            Err(error) => Err(error),
        };
        assert(tells(r, next));
        r
    }
}

// What holds of every session.

/// What is agreed on is offered and supported, and without version 6 no reply is left out.
pub proof fn law_agreement_is_within_the_offer(offer: Seq<u8>)
    requires
        offer.len() == 12,
    ensures
        ({
            let (version, actions, protocol) = agreed(offer);
            let offered_actions = number_of(offer.subrange(4, 8));
            let offered_protocol = number_of(offer.subrange(8, 12));
            &&& version <= number_of(offer.take(4)) && version <= NEWEST_VERSION
            &&& actions & offered_actions == actions && actions & SUPPORTED_ACTIONS == actions
            &&& protocol & offered_protocol == protocol && protocol & SUPPORTED_NO_REPLY == protocol
            &&& version < NEWEST_VERSION ==> protocol == 0
        }),
{
    let a = number_of(offer.subrange(4, 8));
    let p = number_of(offer.subrange(8, 12));
    assert((a & 0x11u32) & a == a & 0x11u32 && (a & 0x11u32) & 0x11u32 == a & 0x11u32)
        by (bit_vector);
    assert((p & 0xff080u32) & p == p & 0xff080u32 && (p & 0xff080u32) & 0xff080u32 == p
        & 0xff080u32) by (bit_vector);
    assert(0u32 & p == 0u32 && 0u32 & 0xff080u32 == 0u32) by (bit_vector);
}

/// A message that cannot be signed is accepted as it is. Nothing is added to it, in whole or in
/// part, and the connection can be used again.
pub proof fn law_unsigned_messages_are_accepted(
    session: SessionView,
    packet: Seq<u8>,
    active: Option<RuntimeConfig>,
    outcome: Result<Seq<char>, Seq<char>>,
)
    requires
        packet.len() != 0,
        packet[0] == COMMAND_END,
        is_message_outcome(session.message, session.actions, outcome),
        early_reason(session.message, session.actions) is Some || refusal(
            session.message.config->0.domain@,
            session.message.headers,
        ) is Some,
    ensures
        session.step(packet, active, outcome).replies == seq![frame(REPLY_ACCEPT, Seq::empty())],
        session.step(packet, active, outcome).next is Unsigned,
        session.step(packet, active, outcome).session.message == no_message(),
{
}

/// A message is signed only if it came through without a fault, the MTA lets headers be added,
/// and it has one From field with the domain that the message began with. What is signed are its
/// fields and the SHA-256 hash of the relaxed form of its body. Then one header is added and the
/// message is accepted.
pub proof fn law_signed_messages_are_fit(
    session: SessionView,
    packet: Seq<u8>,
    active: Option<RuntimeConfig>,
    value: Seq<char>,
)
    requires
        packet.len() != 0,
        packet[0] == COMMAND_END,
        is_message_outcome(session.message, session.actions, Ok(value)),
    ensures
        session.message.error is None,
        session.message.config is Some,
        session.actions & SUPPORTED_ACTIONS != 0,
        refusal(session.message.config->0.domain@, session.message.headers) is None,
        may_sign(
            session.message.config->0,
            session.message.headers,
            sha256(relaxed_body(session.message.body)),
            value,
        ),
        ({
            let step = session.step(packet, active, Ok(value));
            let (command, payload) = addition(session.actions, value);
            fits(payload) ==> step.next is Continue && step.replies == seq![
                frame(command, payload),
                frame(REPLY_ACCEPT, Seq::empty()),
            ]
        }),
{
}

/// The commands of the replies that may be sent: none takes away or changes what a message holds.
pub open spec fn is_reply(bytes: Seq<u8>) -> bool {
    exists|command: u8, payload: Seq<u8>| #[trigger]
        frame(command, payload) == bytes && (command == COMMAND_OPTIONS || command == REPLY_CONTINUE
            || command == REPLY_ACCEPT || command == REPLY_ADD || command == REPLY_INSERT)
}

/// Whether a reply adds a header.
pub open spec fn adds_header(bytes: Seq<u8>) -> bool {
    exists|command: u8, payload: Seq<u8>| #[trigger]
        frame(command, payload) == bytes && (command == REPLY_ADD || command == REPLY_INSERT)
}

proof fn lemma_frame_command(command: u8, payload: Seq<u8>)
    ensures
        frame(command, payload)[4] == command,
{
}

/// Nothing that a message holds is changed or taken away, so signatures that it has stay. A
/// header is added only at the end of a message that was signed.
pub proof fn law_messages_are_only_added_to(
    session: SessionView,
    packet: Seq<u8>,
    active: Option<RuntimeConfig>,
    outcome: Result<Seq<char>, Seq<char>>,
)
    ensures
        ({
            let replies = session.step(packet, active, outcome).replies;
            &&& forall|i: int| 0 <= i < replies.len() ==> is_reply(#[trigger] replies[i])
            &&& forall|i: int|
                0 <= i < replies.len() && adds_header(#[trigger] replies[i]) ==> packet[0]
                    == COMMAND_END && outcome is Ok && i == 0
        }),
{
    let replies = session.step(packet, active, outcome).replies;
    let nothing = Seq::<u8>::empty();
    assert(frame(REPLY_CONTINUE, nothing) == frame(REPLY_CONTINUE, nothing));
    assert(is_reply(frame(REPLY_CONTINUE, nothing)));
    assert(is_reply(frame(REPLY_ACCEPT, nothing)));
    assert forall|i: int| 0 <= i < replies.len() implies is_reply(#[trigger] replies[i]) by {
        if packet[0] == COMMAND_OPTIONS {
            let payload = agreement_payload(agreed(packet.skip(1)));
            assert(replies[i] == frame(COMMAND_OPTIONS, payload));
        }
        if packet[0] == COMMAND_END {
            if let Ok(value) = outcome {
                let (command, payload) = addition(session.actions, value);
                assert(is_reply(frame(command, payload)));
            }
        }
    }
    assert forall|i: int| 0 <= i < replies.len() && adds_header(#[trigger] replies[i]) implies
        packet[0] == COMMAND_END && outcome is Ok && i == 0 by {
        let (command, payload) = choose|command: u8, payload: Seq<u8>| #[trigger]
            frame(command, payload) == replies[i] && (command == REPLY_ADD || command
                == REPLY_INSERT);
        lemma_frame_command(command, payload);
        lemma_frame_command(REPLY_CONTINUE, nothing);
        lemma_frame_command(REPLY_ACCEPT, nothing);
        lemma_frame_command(COMMAND_OPTIONS, agreement_payload(agreed(packet.skip(1))));
    }
}

/// The end of a message is always answered, last of all by accepting the message, unless the
/// signature cannot be sent at all. Other packets of a message are answered once, unless it was
/// agreed that they are not.
pub proof fn law_replies_are_left_out_only_by_agreement(
    session: SessionView,
    packet: Seq<u8>,
    active: Option<RuntimeConfig>,
    outcome: Result<Seq<char>, Seq<char>>,
)
    requires
        packet.len() != 0,
        !(session.step(packet, active, outcome).next is Fail),
    ensures
        packet[0] == COMMAND_END ==> session.step(packet, active, outcome).replies.len() > 0
            && session.step(packet, active, outcome).replies.last() == frame(
            REPLY_ACCEPT,
            Seq::empty(),
        ),
        is_passing(packet[0]) || packet[0] == COMMAND_MAIL || packet[0] == COMMAND_HEADER
            || packet[0] == COMMAND_BODY ==> session.step(packet, active, outcome).replies == (
        if session.protocol & no_reply_of(packet[0]) == 0 {
            seq![frame(REPLY_CONTINUE, Seq::empty())]
        } else {
            Seq::empty()
        }),
{
}

/// A message keeps the configuration that it began with, whatever is active meanwhile. Only a
/// packet that begins a message looks at what is active.
pub proof fn law_messages_keep_their_configuration(
    session: SessionView,
    packet: Seq<u8>,
    active: Option<RuntimeConfig>,
    other: Option<RuntimeConfig>,
    outcome: Result<Seq<char>, Seq<char>>,
)
    requires
        session.message.config is Some,
        packet.len() == 0 || packet[0] != COMMAND_MAIL,
    ensures
        session.step(packet, active, outcome) == session.step(packet, other, outcome),
        packet.len() == 0 || (packet[0] != COMMAND_END && packet[0] != COMMAND_ABORT)
            ==> session.step(packet, active, outcome).session.message.config
            == session.message.config,
{
}

/// A reason not to sign that was noted stays, and stays the same, until a sender begins another
/// message, the message ends, or it is given up.
pub proof fn law_noted_reasons_stay(
    session: SessionView,
    packet: Seq<u8>,
    active: Option<RuntimeConfig>,
    outcome: Result<Seq<char>, Seq<char>>,
)
    requires
        session.message.error is Some,
        packet.len() == 0 || (packet[0] != COMMAND_MAIL && packet[0] != COMMAND_ABORT && packet[0]
            != COMMAND_END),
    ensures
        session.step(packet, active, outcome).session.message.error == session.message.error,
{
}

/// A body that comes before its message is noted against it.
pub proof fn law_early_bodies_are_noted(
    session: SessionView,
    packet: Seq<u8>,
    active: Option<RuntimeConfig>,
    outcome: Result<Seq<char>, Seq<char>>,
)
    requires
        session.message.config is None,
        packet.len() != 0,
        packet[0] == COMMAND_BODY,
    ensures
        session.step(packet, active, outcome).session.message.error is Some,
{
}

/// A message whose sender is given has nothing of what was said before.
pub proof fn law_messages_begin_afresh(
    session: SessionView,
    packet: Seq<u8>,
    config: RuntimeConfig,
    outcome: Result<Seq<char>, Seq<char>>,
)
    requires
        packet.len() != 0,
        packet[0] == COMMAND_MAIL,
    ensures
        session.step(packet, Some(config), outcome).session.message == begun(config),
{
}

/// After the end of a message, or when it is given up, nothing of it is left, and what was
/// agreed on still holds.
pub proof fn law_connections_can_be_reused(
    session: SessionView,
    packet: Seq<u8>,
    active: Option<RuntimeConfig>,
    outcome: Result<Seq<char>, Seq<char>>,
)
    requires
        packet.len() != 0,
        packet[0] == COMMAND_END || packet[0] == COMMAND_ABORT,
    ensures
        session.step(packet, active, outcome).session == (SessionView {
            message: no_message(),
            ..session
        }),
{
}

/// Whatever packets come, no more of a message is kept than the limits allow.
pub proof fn law_sessions_are_bounded(
    session: SessionView,
    packet: Seq<u8>,
    active: Option<RuntimeConfig>,
    outcome: Result<Seq<char>, Seq<char>>,
)
    requires
        session.message.bounded(),
    ensures
        new_session().message.bounded(),
        session.step(packet, active, outcome).session.message.bounded(),
{
    let payload = packet.skip(1);
    if let Some(config) = active {
        law_limits_hold(session.message, config, Seq::empty(), payload);
        law_limits_hold(
            begun_by_header(config, session.message),
            config,
            Seq::empty(),
            payload,
        );
    }
    if let Some(config) = session.message.config {
        law_limits_hold(session.message, config, Seq::empty(), payload);
    }
}

/// The reasons for which a message goes without a signature. They hold nothing that the message
/// does: each is a fixed text, or a fixed text and what OpenSSL says of a failure.
pub open spec fn is_plain_reason(reason: Seq<char>) -> bool {
    ||| reason == "malformed milter header packet"@
    ||| reason == "malformed milter header value"@
    ||| reason == "message header limit exceeded"@
    ||| reason == "invalid header supplied by MTA"@
    ||| reason == "body received before message start"@
    ||| reason == "end of message received before message start"@
    ||| reason == "MTA did not grant permission to add headers"@
    ||| reason == "message must contain exactly one From header"@
    ||| reason == "cannot extract a single From domain"@
    ||| reason == "From domain does not match configured domain"@
    ||| is_signing_failure(reason)
}

/// Whether what was noted against a message, if anything, is such a reason.
pub open spec fn is_plain(message: MessageView) -> bool {
    message.error matches Some(reason) ==> is_plain_reason(reason)
}

/// What is reported of a message that goes without a signature holds nothing of the message.
pub proof fn law_reports_hold_no_content(
    session: SessionView,
    packet: Seq<u8>,
    active: Option<RuntimeConfig>,
    outcome: Result<Seq<char>, Seq<char>>,
)
    requires
        is_plain(session.message),
        is_message_outcome(session.message, session.actions, outcome),
    ensures
        is_plain(new_session().message),
        is_plain(session.step(packet, active, outcome).session.message),
        session.step(packet, active, outcome).next matches NextView::Unsigned(reason)
            ==> is_plain_reason(reason),
{
}

/// Which kind of reason there is not to sign a message, told by what the message lacks.
pub enum Lack {
    /// It was noted while the message came in.
    Noted(Seq<char>),
    Start,
    Permission,
    /// There is no From field, or more than one.
    OneFrom,
    /// The From field has no single address with a domain.
    Address,
    /// The domain is not the configured one.
    Domain,
    Nothing,
}

pub open spec fn lack(message: MessageView, actions: u32) -> Lack {
    let froms = all_named(message.headers, "from"@);
    match message.error {
        Some(reason) => Lack::Noted(reason),
        None => match message.config {
            None => Lack::Start,
            Some(config) => if actions & SUPPORTED_ACTIONS == 0 {
                Lack::Permission
            } else if froms.len() != 1 {
                Lack::OneFrom
            } else {
                match from_domain_of(froms[0].value) {
                    None => Lack::Address,
                    Some(domain) => if lowered(domain) == lowered(config.domain@) {
                        Lack::Nothing
                    } else {
                        Lack::Domain
                    },
                }
            },
        },
    }
}

/// Two messages that lack the same are answered and reported in the same words, whatever headers,
/// bodies, keys and domains they have.
pub proof fn law_reports_depend_on_the_lack_alone(
    a: SessionView,
    b: SessionView,
    packet: Seq<u8>,
    a_active: Option<RuntimeConfig>,
    b_active: Option<RuntimeConfig>,
    a_outcome: Result<Seq<char>, Seq<char>>,
    b_outcome: Result<Seq<char>, Seq<char>>,
)
    requires
        packet.len() != 0,
        packet[0] == COMMAND_END,
        is_message_outcome(a.message, a.actions, a_outcome),
        is_message_outcome(b.message, b.actions, b_outcome),
        lack(a.message, a.actions) == lack(b.message, b.actions),
        !(lack(a.message, a.actions) is Nothing),
    ensures
        a.step(packet, a_active, a_outcome).next is Unsigned,
        a.step(packet, a_active, a_outcome).next == b.step(packet, b_active, b_outcome).next,
        a.step(packet, a_active, a_outcome).replies == b.step(packet, b_active, b_outcome).replies,
{
}

/// Once the time of a connection is over, no packet is read or answered any more.
pub proof fn law_connections_end_in_time(
    before: ConversationView,
    elapsed_millis: u64,
    active: Option<RuntimeConfig>,
    after: ConversationView,
    r: Result<Progress, String>,
)
    requires
        may_handle(before, elapsed_millis, active, after, r),
        elapsed_millis >= 60_000,
    ensures
        after == before,
        r matches Err(error) && error@ == "milter connection lifetime exceeded"@,
{
}

// A whole message.

/// The session after some packets, none of which ends a message.
pub open spec fn after_packets(
    session: SessionView,
    packets: Seq<Seq<u8>>,
    active: Option<RuntimeConfig>,
) -> SessionView
    decreases packets.len(),
{
    if packets.len() == 0 {
        session
    } else {
        after_packets(session, packets.drop_last(), active).step(
            packets.last(),
            active,
            Err(Seq::empty()),
        ).session
    }
}

proof fn lemma_after_packets(
    session: SessionView,
    a: Seq<Seq<u8>>,
    b: Seq<Seq<u8>>,
    active: Option<RuntimeConfig>,
)
    ensures
        after_packets(session, a + b, active) == after_packets(
            after_packets(session, a, active),
            b,
            active,
        ),
    decreases b.len(),
{
    if b.len() == 0 {
        assert(a + b =~= a);
    } else {
        lemma_after_packets(session, a, b.drop_last(), active);
        assert((a + b).drop_last() =~= a + b.drop_last());
    }
}

/// The packet that gives a field: `L`, then the name and the value, each with a zero behind it.
pub open spec fn field_packet(field: HeaderView) -> Seq<u8> {
    seq![0x4cu8] + field.name + seq![0u8] + field.value + seq![0u8]
}

proof fn lemma_fields_come_in(
    session: SessionView,
    config: RuntimeConfig,
    fields: Seq<HeaderView>,
    active: Option<RuntimeConfig>,
)
    requires
        session.message == begun(config),
        fields.len() <= 1_000,
        field_bytes(fields) <= 1_048_576,
        forall|i: int|
            0 <= i < fields.len() ==> is_header((#[trigger] fields[i]).name, fields[i].value),
    ensures
        after_packets(session, fields.map_values(|f: HeaderView| field_packet(f)), active) == (
        SessionView {
            message: MessageView {
                config: Some(config),
                headers: fields,
                header_bytes: field_bytes(fields) as usize,
                body: Seq::empty(),
                error: None,
            },
            ..session
        }),
    decreases fields.len(),
{
    let f = |f: HeaderView| field_packet(f);
    let packets = fields.map_values(f);
    if fields.len() == 0 {
        assert(fields =~= Seq::empty());
    } else {
        let front = fields.drop_last();
        let field = fields.last();
        assert forall|i: int| 0 <= i < front.len() implies is_header(
            (#[trigger] front[i]).name,
            front[i].value,
        ) by {
            assert(front[i] == fields[i]);
        }
        assert(field == fields[fields.len() - 1]);
        lemma_fields_come_in(session, config, front, active);
        assert(packets.drop_last() =~= front.map_values(f));
        let before = after_packets(session, packets.drop_last(), active);
        let packet = packets.last();
        assert(packet == field_packet(field));
        assert(packet.skip(1) =~= header_packet(field.name, field.value));
        assert(!field.name.contains(0)) by {
            if field.name.contains(0) {
                let k = choose|k: int| 0 <= k < field.name.len() && field.name[k] == 0;
                assert(is_name_byte(field.name[k]));
            }
        }
        law_header_packets_are_read(before.message, field.name, field.value);
        assert(front.push(field) =~= fields);
        assert(HeaderView { name: field.name, value: field.value } == field);
    }
}

proof fn lemma_bodies_come_in(
    session: SessionView,
    chunks: Seq<Seq<u8>>,
    active: Option<RuntimeConfig>,
)
    requires
        session.message.config is Some,
        session.message.error is None,
    ensures
        after_packets(session, chunks.map_values(|c: Seq<u8>| seq![0x42u8] + c), active) == (
        SessionView {
            message: MessageView {
                body: session.message.body + chunks.flatten(),
                ..session.message
            },
            ..session
        }),
    decreases chunks.len(),
{
    let f = |c: Seq<u8>| seq![0x42u8] + c;
    let packets = chunks.map_values(f);
    if chunks.len() == 0 {
        assert(session.message.body + chunks.flatten() =~= session.message.body);
    } else {
        let front = chunks.drop_last();
        let chunk = chunks.last();
        lemma_bodies_come_in(session, front, active);
        assert(packets.drop_last() =~= front.map_values(f));
        assert(packets.last() == f(chunk));
        assert(packets.last().skip(1) =~= chunk);
        front.lemma_flatten_push(chunk);
        assert(front.push(chunk) =~= chunks);
        assert(session.message.body + front.flatten() + chunk =~= session.message.body
            + chunks.flatten());
    }
}

/// A message is taken as it comes. After a sender, fields within the limits, and the parts of a
/// body, what is to be signed are those fields, all of them in their order, and that body, whole,
/// under the configuration that was active when the sender came.
pub proof fn law_messages_are_taken_as_they_come(
    session: SessionView,
    config: RuntimeConfig,
    sender: Seq<u8>,
    fields: Seq<HeaderView>,
    chunks: Seq<Seq<u8>>,
    later: Option<RuntimeConfig>,
)
    requires
        fields.len() <= 1_000,
        field_bytes(fields) <= 1_048_576,
        forall|i: int|
            0 <= i < fields.len() ==> is_header((#[trigger] fields[i]).name, fields[i].value),
    ensures
        ({
            let start = session.step(
                seq![0x4du8] + sender,
                Some(config),
                Err(Seq::empty()),
            ).session;
            let end = after_packets(
                start,
                fields.map_values(|f: HeaderView| field_packet(f)) + chunks.map_values(
                    |c: Seq<u8>| seq![0x42u8] + c,
                ),
                later,
            );
            &&& end.message.config == Some(config)
            &&& end.message.headers == fields
            &&& end.message.body == chunks.flatten()
            &&& end.message.error is None
            &&& end.actions == session.actions && end.protocol == session.protocol
        }),
{
    let start = session.step(seq![0x4du8] + sender, Some(config), Err(Seq::empty())).session;
    let headers = fields.map_values(|f: HeaderView| field_packet(f));
    lemma_fields_come_in(start, config, fields, later);
    lemma_bodies_come_in(after_packets(start, headers, later), chunks, later);
    lemma_after_packets(
        start,
        headers,
        chunks.map_values(|c: Seq<u8>| seq![0x42u8] + c),
        later,
    );
    assert(Seq::<u8>::empty() + chunks.flatten() =~= chunks.flatten());
}

/// A signature is sent in one packet: `i`, with the place 0 before all other headers, if the MTA
/// lets headers be changed, else `h`; then the name `DKIM-Signature` and the value, each with a
/// zero behind it. After it comes `a`. Without a signature only `a` is sent, and the reason is
/// reported.
pub proof fn law_ends_of_messages_are_answered(
    session: SessionView,
    payload: Seq<u8>,
    active: Option<RuntimeConfig>,
    value: Seq<char>,
    why: Seq<char>,
)
    ensures
        ({
            let packet = seq![0x45u8] + payload;
            let signed = session.step(packet, active, Ok(value));
            let unsigned = session.step(packet, active, Err(why));
            let field = encode_utf8("DKIM-Signature"@) + seq![0u8] + encode_utf8(value) + seq![0u8];
            let place = seq![0u8, 0, 0, 0];
            let accept = frame(0x61, Seq::empty());
            &&& field.len() < 0xffff_fff0 ==> signed.next is Continue && signed.replies
                == if session.actions & 0x10 != 0 {
                seq![frame(0x69, place + field), accept]
            } else {
                seq![frame(0x68, field), accept]
            }
            &&& unsigned.replies == seq![accept]
            &&& unsigned.next == NextView::Unsigned(why)
        }),
{
    let field = encode_utf8("DKIM-Signature"@) + seq![0u8] + encode_utf8(value) + seq![0u8];
    assert(field =~= field_payload(value));
    assert(number_bytes(0) =~= seq![0u8, 0, 0, 0]);
}

/// There is no reason not to sign a message, before it is looked at, if and only if none was noted,
/// it has begun, and the MTA lets headers be added or changed.
pub proof fn law_messages_are_signed_where_permitted(message: MessageView, actions: u32)
    ensures
        early_reason(message, actions) is None <==> message.error is None && message.config is Some
            && actions & 0x11 != 0,
{
}

/// The version, actions and options that are agreed on: version 6 at most, of the actions those
/// that add or change headers, and from version 6 on of the options those that leave replies out.
/// The answer tells them.
pub proof fn law_negotiation_takes_what_is_supported(
    session: SessionView,
    version: u32,
    actions: u32,
    protocol: u32,
    active: Option<RuntimeConfig>,
    outcome: Result<Seq<char>, Seq<char>>,
)
    ensures
        ({
            let offer = number_bytes(version) + number_bytes(actions) + number_bytes(protocol);
            let step = session.step(seq![0x4fu8] + offer, active, outcome);
            let spoken: u32 = if version < 6 {
                version
            } else {
                6
            };
            let options: u32 = if version < 6 {
                0
            } else {
                protocol & 0x000f_f080
            };
            &&& step.session.actions == actions & 0x11
            &&& step.session.protocol == options
            &&& step.session.message == session.message
            &&& step.replies == seq![
                frame(
                    0x4f,
                    number_bytes(spoken) + number_bytes(actions & 0x11) + number_bytes(options),
                ),
            ]
            &&& step.next is Continue
        }),
{
    let offer = number_bytes(version) + number_bytes(actions) + number_bytes(protocol);
    let packet = seq![0x4fu8] + offer;
    lemma_number(version);
    lemma_number(actions);
    lemma_number(protocol);
    assert(packet.skip(1) =~= offer);
    lemma_offer(number_bytes(version), number_bytes(actions), number_bytes(protocol));
}

proof fn lemma_offer(version: Seq<u8>, actions: Seq<u8>, protocol: Seq<u8>)
    requires
        version.len() == 4,
        actions.len() == 4,
        protocol.len() == 4,
    ensures
        agreed(version + actions + protocol) == ({
            let spoken: u32 = if number_of(version) < 6 {
                number_of(version)
            } else {
                6
            };
            (
                spoken,
                number_of(actions) & 0x11,
                if number_of(version) < 6 {
                    0
                } else {
                    number_of(protocol) & 0x000f_f080
                },
            )
        }),
{
    let offer = version + actions + protocol;
    assert(offer.take(4) =~= version);
    assert(offer.subrange(4, 8) =~= actions);
    assert(offer.subrange(8, 12) =~= protocol);
}

/// Each command that is answered has its own option by which the answer is left out.
pub proof fn law_each_reply_has_its_option(protocol: u32)
    ensures
        ({
            let go_on = |option: u32|
                if protocol & option == 0 {
                    seq![frame(0x63, Seq::empty())]
                } else {
                    Seq::<Seq<u8>>::empty()
                };
            &&& continue_replies(protocol, 0x43) == go_on(0x1000)
            &&& continue_replies(protocol, 0x48) == go_on(0x2000)
            &&& continue_replies(protocol, 0x4d) == go_on(0x4000)
            &&& continue_replies(protocol, 0x52) == go_on(0x8000)
            &&& continue_replies(protocol, 0x54) == go_on(0x1_0000)
            &&& continue_replies(protocol, 0x55) == go_on(0x2_0000)
            &&& continue_replies(protocol, 0x4e) == go_on(0x4_0000)
            &&& continue_replies(protocol, 0x42) == go_on(0x8_0000)
            &&& continue_replies(protocol, 0x4c) == go_on(0x80)
        }),
{
}

/// What the commands do that carry nothing of a message: `C`, `H`, `R`, `T`, `N` and `U` are only
/// answered, `D` is not even that, `A` forgets the message, and `Q` and `K` close the connection.
/// Any command but these and `O`, `M`, `L`, `B` and `E` gives the connection up.
pub proof fn law_other_commands_leave_messages_alone(
    session: SessionView,
    command: u8,
    payload: Seq<u8>,
    active: Option<RuntimeConfig>,
    outcome: Result<Seq<char>, Seq<char>>,
)
    ensures
        ({
            let step = session.step(seq![command] + payload, active, outcome);
            let passing = command == 0x43 || command == 0x48 || command == 0x52 || command == 0x54
                || command == 0x4e || command == 0x55;
            let closing = command == 0x51 || command == 0x4b;
            let working = command == 0x4f || command == 0x4d || command == 0x4c || command == 0x42
                || command == 0x45;
            &&& passing ==> step.session == session && step.next is Continue && step.replies
                == continue_replies(session.protocol, command)
            &&& command == 0x44 ==> step.session == session && step.next is Continue
                && step.replies.len() == 0
            &&& command == 0x41 ==> step.session.message == no_message() && step.session.actions
                == session.actions && step.session.protocol == session.protocol && step.next
                is Continue && step.replies.len() == 0
            &&& closing ==> step.next is Close && step.replies.len() == 0
            &&& !passing && !closing && !working && command != 0x44 && command != 0x41 ==> step.next
                is Fail && step.replies.len() == 0
        }),
{
}

/// Before its time is over, which is after a minute, a connection is never given up for it: what
/// was read is answered, or more is awaited, or the connection is done.
pub proof fn law_connections_last_a_minute(
    before: ConversationView,
    elapsed_millis: u64,
    active: Option<RuntimeConfig>,
    after: ConversationView,
    r: Result<Progress, String>,
)
    requires
        may_handle(before, elapsed_millis, active, after, r),
        elapsed_millis < 60_000,
    ensures
        match reading(before.incoming) {
            Reading::Await(n) => after == before && r == Ok::<Progress, String>(
                Progress::Await(n as usize),
            ),
            Reading::End => r == Ok::<Progress, String>(Progress::Done),
            Reading::Packet(packet) => exists|next: NextView| #[trigger]
                tells(r, next) && may_answer(before, packet, active, after, next),
            _ => r is Err && after.session == before.session && after.outgoing == before.outgoing,
        },
{
}

} // verus!
