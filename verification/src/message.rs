//! A message as the MTA hands it over: its headers, within limits, and the hash of its body.

use std::sync::Arc;
use vstd::prelude::*;
use vstd::slice::*;

use crate::body::{relaxed_body, BodyCanonicalizer};
use crate::config::RuntimeConfig;
use crate::crypto::sha256;
use crate::header::{contains_nul, fields, is_header, Header, HeaderView};
use crate::text::{find, lemma_find, lemma_find_is};

verus! {

/// The most header fields that a message may have.
pub const MAX_HEADERS: usize = 1_000;

/// The most bytes that the names and values of a message's headers may have.
pub const MAX_HEADER_BYTES: usize = 1_048_576;

/// A message in the course of being received.
pub struct MessageState {
    /// The configuration when the message began.
    pub config: Option<Arc<RuntimeConfig>>,
    pub headers: Vec<Header>,
    pub header_bytes: usize,
    pub body: BodyCanonicalizer,
    /// The first reason not to sign the message.
    pub error: Option<String>,
}

pub struct MessageView {
    pub config: Option<RuntimeConfig>,
    pub headers: Seq<HeaderView>,
    pub header_bytes: usize,
    pub body: Seq<u8>,
    pub error: Option<Seq<char>>,
}

pub open spec fn shared_config(config: Option<Arc<RuntimeConfig>>) -> Option<RuntimeConfig> {
    match config {
        Some(config) => Some(*config),
        None => None,
    }
}

impl View for MessageState {
    type V = MessageView;

    open spec fn view(&self) -> MessageView {
        MessageView {
            config: shared_config(self.config),
            headers: fields(self.headers@),
            header_bytes: self.header_bytes,
            body: self.body@,
            error: match self.error {
                Some(error) => Some(error@),
                None => None,
            },
        }
    }
}

/// No message.
pub open spec fn no_message() -> MessageView {
    MessageView {
        config: None,
        headers: Seq::empty(),
        header_bytes: 0,
        body: Seq::empty(),
        error: None,
    }
}

/// A message that has just begun.
pub open spec fn begun(config: RuntimeConfig) -> MessageView {
    MessageView { config: Some(config), ..no_message() }
}

/// A message that begins with a header, without its sender: what was noted before still holds.
pub open spec fn begun_by_header(config: RuntimeConfig, before: MessageView) -> MessageView {
    MessageView { error: before.error, ..begun(config) }
}

impl MessageView {
    /// The message with a reason not to sign it, unless it has one already.
    pub open spec fn failed(self, reason: Seq<char>) -> MessageView {
        match self.error {
            Some(_) => self,
            None => MessageView { error: Some(reason), ..self },
        }
    }

    /// The message with a header packet.
    pub open spec fn with_header(self, payload: Seq<u8>) -> MessageView {
        if self.error is Some {
            self
        } else {
            match find(payload, 0u8) {
                None => self.failed("malformed milter header packet"@),
                Some(at) => {
                    let name = payload.take(at);
                    let rest = payload.skip(at + 1);
                    if rest.len() == 0 || rest.last() != 0 || rest.drop_last().contains(0) {
                        self.failed("malformed milter header value"@)
                    } else {
                        self.with_field(name, rest.drop_last())
                    }
                },
            }
        }
    }

    /// The message with a header field, if that is within the limits.
    pub open spec fn with_field(self, name: Seq<u8>, value: Seq<u8>) -> MessageView {
        let sum = self.header_bytes + name.len() + value.len();
        let counted = MessageView {
            header_bytes: if sum > usize::MAX {
                usize::MAX
            } else {
                sum as usize
            },
            ..self
        };
        if self.headers.len() >= MAX_HEADERS || counted.header_bytes > MAX_HEADER_BYTES {
            counted.failed("message header limit exceeded"@)
        } else if is_header(name, value) {
            MessageView { headers: self.headers.push(HeaderView { name, value }), ..counted }
        } else {
            counted.failed("invalid header supplied by MTA"@)
        }
    }

    /// The message with a part of its body.
    pub open spec fn with_body(self, payload: Seq<u8>) -> MessageView {
        if self.config is None {
            self.failed("body received before message start"@)
        } else if self.error is None {
            MessageView { body: self.body + payload, ..self }
        } else {
            self
        }
    }

    /// The hash of the relaxed form of the body.
    pub open spec fn body_hash(self) -> Seq<u8> {
        sha256(relaxed_body(self.body))
    }
}

impl Default for MessageState {
    fn default() -> (r: Self)
        ensures
            r@ == no_message(),
            r.wf(),
    {
        let r = MessageState {
            config: None,
            headers: Vec::new(),
            header_bytes: 0,
            body: BodyCanonicalizer::default(),
            error: None,
        };
        assert(r@.headers =~= Seq::empty());
        r
    }
}

impl MessageState {
    pub open spec fn wf(self) -> bool {
        self.body.wf()
    }

    /// Starts a message, which keeps this configuration to its end.
    pub fn begin(&mut self, config: Arc<RuntimeConfig>)
        ensures
            final(self)@ == begun(*config),
            final(self).wf(),
    {
        let mut state = MessageState::default();
        state.config = Some(config);
        *self = state;
    }

    /// Starts a message with a header, without its sender. A reason not to sign that was noted
    /// before still holds.
    pub fn begin_by_header(&mut self, config: Arc<RuntimeConfig>)
        ensures
            final(self)@ == begun_by_header(*config, old(self)@),
            final(self).wf(),
    {
        let mut error: Option<String> = None;
        core::mem::swap(&mut self.error, &mut error);
        self.begin(config);
        self.error = error;
    }

    /// Notes a reason not to sign the message. Only the first is kept.
    pub fn fail(&mut self, reason: String)
        requires
            old(self).wf(),
        ensures
            final(self)@ == old(self)@.failed(reason@),
            final(self).wf(),
    {
        if self.error.is_none() {
            self.error = Some(reason);
        }
    }

    /// Takes a part of the body.
    pub fn receive_body(&mut self, payload: &[u8])
        requires
            old(self).wf(),
        ensures
            final(self)@ == old(self)@.with_body(payload@),
            final(self).wf(),
    {
        if self.config.is_none() {
            self.fail("body received before message start".to_owned());
        } else if self.error.is_none() {
            self.body.update(payload);
        }
    }
}

fn find_nul(s: &[u8]) -> (r: Option<usize>)
    ensures
        match r {
            Some(i) => i < s@.len() && find(s@, 0u8) == Some(i as int),
            None => find(s@, 0u8) is None,
        },
{
    let mut i: usize = 0;
    assert(s@.skip(0) =~= s@);
    while i < s.len()
        invariant
            i <= s@.len(),
            find(s@, 0u8) == match find(s@.skip(i as int), 0u8) {
                Some(k) => Some(i + k),
                None => None,
            },
        decreases s@.len() - i,
    {
        assert(s@.skip(i as int).skip(1) =~= s@.skip(i + 1));
        if s[i] == 0 {
            return Some(i);
        }
        i += 1;
    }
    None
}

/// Takes a header packet: a name and a value, each with a zero byte behind it.
pub fn receive_header(state: &mut MessageState, payload: &[u8])
    requires
        old(state).wf(),
    ensures
        final(state)@ == old(state)@.with_header(payload@),
        final(state).wf(),
{
    if state.error.is_some() {
        return;
    }
    let separator = match find_nul(payload) {
        Some(separator) => separator,
        None => {
            state.fail("malformed milter header packet".to_owned());
            return;
        },
    };
    let len: usize = payload.len();
    let name = slice_subrange(payload, 0, separator);
    let rest = slice_subrange(payload, separator + 1, len);
    assert(name@ =~= payload@.take(separator as int));
    assert(rest@ =~= payload@.skip(separator + 1));
    let rest_len: usize = rest.len();
    if rest_len == 0 || rest[rest_len - 1] != 0 {
        state.fail("malformed milter header value".to_owned());
        return;
    }
    let value = slice_subrange(rest, 0, rest_len - 1);
    assert(value@ =~= rest@.drop_last());
    if contains_nul(value) {
        state.fail("malformed milter header value".to_owned());
        return;
    }
    state.header_bytes = state.header_bytes.saturating_add(name.len() + value.len());
    if state.headers.len() >= MAX_HEADERS || state.header_bytes > MAX_HEADER_BYTES {
        state.fail("message header limit exceeded".to_owned());
        return;
    }
    match Header::new(name, value) {
        Ok(header) => {
            let ghost before = fields(state.headers@);
            state.headers.push(header);
            assert(fields(state.headers@) =~= before.push(header@));
        },
        Err(error) => state.fail(error),
    }
}

// Limits.

/// The bytes of the names and values of header fields.
pub open spec fn field_bytes(headers: Seq<HeaderView>) -> nat
    decreases headers.len(),
{
    if headers.len() == 0 {
        0
    } else {
        field_bytes(headers.drop_last()) + headers.last().name.len() + headers.last().value.len()
    }
}

impl MessageView {
    /// What is kept of a message is within the limits, and every field is a good one. The count
    /// of bytes is that of the fields until the message has failed.
    pub open spec fn bounded(self) -> bool {
        &&& self.headers.len() <= MAX_HEADERS
        &&& field_bytes(self.headers) <= MAX_HEADER_BYTES
        &&& forall|i: int|
            0 <= i < self.headers.len() ==> is_header(
                (#[trigger] self.headers[i]).name,
                self.headers[i].value,
            )
        &&& self.error is None ==> self.header_bytes == field_bytes(self.headers)
    }
}

/// A message that begins is within the limits, and stays within them whatever comes.
pub proof fn law_limits_hold(
    message: MessageView,
    config: RuntimeConfig,
    reason: Seq<char>,
    payload: Seq<u8>,
)
    requires
        message.bounded(),
    ensures
        no_message().bounded(),
        begun(config).bounded(),
        begun_by_header(config, message).bounded(),
        message.failed(reason).bounded(),
        message.with_header(payload).bounded(),
        message.with_body(payload).bounded(),
{
    if let Some(at) = find(payload, 0u8) {
        lemma_find(payload, 0u8);
        let name = payload.take(at);
        let value = payload.skip(at + 1).drop_last();
        let headers = message.headers.push(HeaderView { name, value });
        assert(headers.drop_last() =~= message.headers);
    }
}

/// A message that has failed stays failed, for the same reason, and takes nothing more in.
pub proof fn law_failed_messages_do_not_grow(
    message: MessageView,
    reason: Seq<char>,
    payload: Seq<u8>,
)
    requires
        message.error is Some,
    ensures
        message.failed(reason) == message,
        message.with_header(payload) == message,
        message.with_body(payload) == message,
{
}

/// How a body is cut into packets makes no difference.
pub proof fn law_body_parts_are_joined(message: MessageView, a: Seq<u8>, b: Seq<u8>)
    ensures
        message.with_body(a).with_body(b) == message.with_body(a + b),
{
    assert(message.body + a + b =~= message.body + (a + b));
}

/// The packet of a header field.
pub open spec fn header_packet(name: Seq<u8>, value: Seq<u8>) -> Seq<u8> {
    name.push(0) + value.push(0)
}

/// A header field that was put in a packet is read from it.
pub proof fn law_header_packets_are_read(message: MessageView, name: Seq<u8>, value: Seq<u8>)
    requires
        message.error is None,
        !name.contains(0),
        !value.contains(0),
    ensures
        message.with_header(header_packet(name, value)) == message.with_field(name, value),
{
    let payload = header_packet(name, value);
    assert(payload[name.len() as int] == 0);
    assert forall|i: int| 0 <= i < name.len() implies payload[i] != 0 by {
        assert(payload[i] == name[i]);
        assert(name.contains(name[i]));
    }
    lemma_find_is(payload, 0u8, name.len() as int);
    assert(payload.take(name.len() as int) =~= name);
    assert(payload.skip(name.len() as int + 1) =~= value.push(0));
    assert(value.push(0).drop_last() =~= value);
}

/// A good field is kept, last of all, as long as there are fewer than a thousand before it and all
/// together have at most a megabyte. Else the message fails, and no field is added.
pub proof fn law_fields_within_limits_are_kept(
    message: MessageView,
    name: Seq<u8>,
    value: Seq<u8>,
)
    requires
        message.bounded(),
        message.error is None,
    ensures
        ({
            let after = message.with_field(name, value);
            let total = field_bytes(message.headers) + name.len() + value.len();
            if message.headers.len() < 1_000 && total <= 1_048_576 && is_header(name, value) {
                &&& after.headers == message.headers.push(HeaderView { name, value })
                &&& after.error is None
                &&& after.header_bytes == total
                &&& after.config == message.config && after.body == message.body
            } else {
                &&& after.headers == message.headers
                &&& after.error is Some
                &&& after.config == message.config && after.body == message.body
            }
        }),
{
}

/// A part of the body of a message that has begun and has not failed is added to what came before,
/// whole, and nothing else of the message changes.
pub proof fn law_bodies_are_kept_whole(message: MessageView, payload: Seq<u8>)
    requires
        message.config is Some,
        message.error is None,
    ensures
        message.with_body(payload) == (MessageView { body: message.body + payload, ..message }),
{
}

/// Of two reasons not to sign a message, the first is kept.
pub proof fn law_first_reasons_are_kept(message: MessageView, a: Seq<char>, b: Seq<char>)
    ensures
        message.error is None ==> message.failed(a) == (MessageView { error: Some(a), ..message }),
        message.failed(a).failed(b) == message.failed(a),
        message.failed(a).error is Some,
{
}

/// The bytes of fields are those of their names and values.
pub proof fn law_field_bytes_are_added_up(headers: Seq<HeaderView>, field: HeaderView)
    ensures
        field_bytes(Seq::empty()) == 0,
        field_bytes(headers.push(field)) == field_bytes(headers) + field.name.len()
            + field.value.len(),
{
    assert(headers.push(field).drop_last() =~= headers);
}

/// A header packet without a zero byte, or whose last byte is none, or with more than two, is
/// malformed, and the message fails. No field is added.
pub proof fn law_malformed_header_packets_fail(message: MessageView, payload: Seq<u8>)
    requires
        message.error is None,
        payload.filter(|b: u8| b == 0).len() != 2 || payload.last() != 0,
    ensures
        message.with_header(payload).error == Some(
            if payload.contains(0) {
                "malformed milter header value"@
            } else {
                "malformed milter header packet"@
            },
        ),
        message.with_header(payload).headers == message.headers,
        message.with_header(payload).body == message.body,
{
    lemma_find(payload, 0u8);
    if let Some(at) = find(payload, 0u8) {
        let name = payload.take(at);
        let rest = payload.skip(at + 1);
        if rest.len() > 0 && rest.last() == 0 && !rest.drop_last().contains(0) {
            let value = rest.drop_last();
            assert(payload =~= header_packet(name, value));
            assert(payload.last() == 0);
            lemma_two_zeros(name, value);
        }
        assert(payload.contains(payload[at]));
    }
}

proof fn lemma_no_zeros(s: Seq<u8>)
    requires
        !s.contains(0),
    ensures
        s.filter(|b: u8| b == 0).len() == 0,
    decreases s.len(),
{
    reveal(Seq::filter);
    if s.len() > 0 {
        assert(s.contains(s[s.len() - 1]));
        assert forall|x: u8| s.drop_last().contains(x) implies s.contains(x) by {
            let k = choose|k: int| 0 <= k < s.drop_last().len() && s.drop_last()[k] == x;
            assert(s[k] == x);
        }
        lemma_no_zeros(s.drop_last());
    }
}

proof fn lemma_two_zeros(name: Seq<u8>, value: Seq<u8>)
    requires
        !name.contains(0),
        !value.contains(0),
    ensures
        header_packet(name, value).filter(|b: u8| b == 0).len() == 2,
{
    let p = |b: u8| b == 0;
    lemma_no_zeros(name);
    lemma_no_zeros(value);
    Seq::filter_distributes_over_add(name.push(0), value.push(0), p);
    reveal(Seq::filter);
    assert(name.push(0).drop_last() =~= name);
    assert(value.push(0).drop_last() =~= value);
}

} // verus!
