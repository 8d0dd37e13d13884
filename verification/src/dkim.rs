//! DKIM signatures over the relaxed form of selected headers and the hash of the body.

use vstd::prelude::*;
use vstd::string::StringExecFns;
use vstd::utf8::*;

use crate::address::{from_domain, from_domain_of};
use crate::clock::unix_seconds;
use crate::config::{text_result, with_cause, RuntimeConfig};
use crate::crypto::{
    base64_of, base64_text, is_signature, key_contents, lemma_base64_is_plain, signer_finish,
    signer_input, signer_of, signer_update,
};
use crate::fold::{fold_signature, folded_text, law_folding_keeps_last_word};
use crate::header::{fields, lower_bytes, relaxed_header, relaxed_value, HeaderView, COLON};
use crate::text::{
    chars_of, concat2, decimal, decimal_of, is_text, join, lemma_split_join, lowered,
    split, starts_with, string_of, to_lower,
};

pub use crate::body::BodyCanonicalizer;
pub use crate::header::{canonicalize_header, Header};

verus! {

/// The headers that are signed where a message has them, in the order of the `h=` tag.
pub open spec fn signed_headers() -> Seq<Seq<char>> {
    seq![
        "from"@,
        "sender"@,
        "reply-to"@,
        "subject"@,
        "date"@,
        "message-id"@,
        "to"@,
        "cc"@,
        "mime-version"@,
        "content-type"@,
        "content-transfer-encoding"@,
        "in-reply-to"@,
        "references"@,
    ]
}

fn signed_header_names() -> (r: [&'static str; 13])
    ensures
        forall|i: int| 0 <= i < 13 ==> (#[trigger] r@[i])@ == signed_headers()[i],
{
    [
        "from",
        "sender",
        "reply-to",
        "subject",
        "date",
        "message-id",
        "to",
        "cc",
        "mime-version",
        "content-type",
        "content-transfer-encoding",
        "in-reply-to",
        "references",
    ]
}

/// The fields of this name.
pub open spec fn all_named(headers: Seq<HeaderView>, name: Seq<char>) -> Seq<HeaderView>
    decreases headers.len(),
{
    if headers.len() == 0 {
        Seq::empty()
    } else if headers.last().named(name) {
        all_named(headers.drop_last(), name).push(headers.last())
    } else {
        all_named(headers.drop_last(), name)
    }
}

/// The last field of this name.
pub open spec fn last_named(headers: Seq<HeaderView>, name: Seq<char>) -> Option<HeaderView>
    decreases headers.len(),
{
    if headers.len() == 0 {
        None
    } else if headers.last().named(name) {
        Some(headers.last())
    } else {
        last_named(headers.drop_last(), name)
    }
}

/// Why a message is not signed, if it is not.
pub open spec fn refusal(domain: Seq<char>, headers: Seq<HeaderView>) -> Option<Seq<char>> {
    let froms = all_named(headers, "from"@);
    if froms.len() != 1 {
        Some("message must contain exactly one From header"@)
    } else {
        match from_domain_of(froms[0].value) {
            None => Some("cannot extract a single From domain"@),
            Some(from) => if lowered(from) == lowered(domain) {
                None
            } else {
                Some("From domain does not match configured domain"@)
            },
        }
    }
}

/// The `h=` tag: the names of the headers that are signed, and From once more, so that no other
/// From can be added.
pub open spec fn tag_names(headers: Seq<HeaderView>, names: Seq<Seq<char>>) -> Seq<Seq<char>>
    decreases names.len(),
{
    if names.len() == 0 {
        Seq::empty()
    } else {
        let name = names.last();
        let before = tag_names(headers, names.drop_last());
        let listed = if last_named(headers, name) is Some {
            before.push(name)
        } else {
            before
        };
        if name == "from"@ {
            listed.push("from"@)
        } else {
            listed
        }
    }
}

/// The relaxed forms of the headers that are signed.
pub open spec fn header_bytes(headers: Seq<HeaderView>, names: Seq<Seq<char>>) -> Seq<u8>
    decreases names.len(),
{
    if names.len() == 0 {
        Seq::empty()
    } else {
        let before = header_bytes(headers, names.drop_last());
        match last_named(headers, names.last()) {
            Some(header) => before + relaxed_header(header.name, header.value),
            None => before,
        }
    }
}

/// The value of the signature header, up to where the signature goes.
pub open spec fn unsigned_text(
    domain: Seq<char>,
    selector: Seq<char>,
    time: u64,
    names: Seq<Seq<char>>,
    body_hash: Seq<u8>,
) -> Seq<char> {
    "v=1; a=rsa-sha256; c=relaxed/relaxed; d="@ + domain + "; s="@ + selector + "; t="@ + decimal(
        time as nat,
    ) + "; h="@ + join(names, ":"@) + "; bh="@ + base64_text(body_hash) + "; b="@
}

/// The relaxed form of the signature header, which is signed without its line end.
pub open spec fn signature_header_bytes(value: Seq<u8>) -> Seq<u8> {
    lower_bytes(encode_utf8("DKIM-Signature"@)).push(COLON) + relaxed_value(value)
}

/// What is signed for a message at some time.
pub struct SigningView {
    pub unsigned: Seq<char>,
    pub header_bytes: Seq<u8>,
    pub signature_bytes: Seq<u8>,
}

pub open spec fn signing_view(
    domain: Seq<char>,
    selector: Seq<char>,
    headers: Seq<HeaderView>,
    body_hash: Seq<u8>,
    time: u64,
) -> SigningView {
    let unsigned = unsigned_text(
        domain,
        selector,
        time,
        tag_names(headers, signed_headers()),
        body_hash,
    );
    SigningView {
        unsigned,
        header_bytes: header_bytes(headers, signed_headers()),
        signature_bytes: signature_header_bytes(encode_utf8(unsigned)),
    }
}

/// What is signed for a message: the headers, then the signature header, whose value is
/// `unsigned`.
pub struct SigningInput {
    pub unsigned: String,
    pub header_bytes: Vec<u8>,
    pub signature_bytes: Vec<u8>,
}

impl View for SigningInput {
    type V = SigningView;

    open spec fn view(&self) -> SigningView {
        SigningView {
            unsigned: self.unsigned@,
            header_bytes: self.header_bytes@,
            signature_bytes: self.signature_bytes@,
        }
    }
}

/// The relaxed form of a signature header with this value, without its line end.
pub fn canonicalize_signature_header(value: &[u8]) -> (r: Vec<u8>)
    ensures
        r@ == signature_header_bytes(value@),
{
    let mut canonical = canonicalize_header("DKIM-Signature".as_bytes(), value);
    let len: usize = canonical.len();
    canonical.truncate(len - 2);
    assert(canonical@ =~= signature_header_bytes(value@));
    canonical
}

fn find_last(headers: &[Header], name: &str) -> (r: Option<usize>)
    ensures
        match r {
            Some(i) => i < fields(headers@).len() && last_named(fields(headers@), name@) == Some(fields(headers@)[i as int]),
            None => last_named(fields(headers@), name@) is None,
        },
{
    let mut end: usize = headers.len();
    assert(fields(headers@).take(end as int) =~= fields(headers@));
    while 0 < end
        invariant
            end <= fields(headers@).len(),
            last_named(fields(headers@), name@) == last_named(fields(headers@).take(end as int), name@),
        decreases end,
    {
        assert(fields(headers@).take(end as int).drop_last() =~= fields(headers@).take(end - 1));
        if headers[end - 1].is(name) {
            return Some(end - 1);
        }
        end -= 1;
    }
    None
}

fn only_from(headers: &[Header]) -> (r: Option<usize>)
    ensures
        match r {
            Some(i) => i < fields(headers@).len() && all_named(fields(headers@), "from"@) == seq![
                fields(headers@)[i as int],
            ],
            None => all_named(fields(headers@), "from"@).len() != 1,
        },
{
    let mut found: Option<usize> = None;
    let mut i: usize = 0;
    while i < headers.len()
        invariant
            i <= fields(headers@).len(),
            match found {
                Some(k) => k < i && all_named(fields(headers@).take(i as int), "from"@) == seq![
                    fields(headers@)[k as int],
                ],
                None => all_named(fields(headers@).take(i as int), "from"@).len() == 0,
            },
        decreases fields(headers@).len() - i,
    {
        assert(fields(headers@).take(i + 1).drop_last() =~= fields(headers@).take(i as int));
        if headers[i].is("from") {
            if found.is_some() {
                proof {
                    lemma_all_named_grows(fields(headers@), i + 1, "from"@);
                }
                return None;
            }
            found = Some(i);
            assert(all_named(fields(headers@).take(i + 1), "from"@) =~= seq![fields(headers@)[i as int]]);
        }
        i += 1;
    }
    assert(fields(headers@).take(i as int) =~= fields(headers@));
    found
}

proof fn lemma_all_named_grows(headers: Seq<HeaderView>, n: int, name: Seq<char>)
    requires
        0 <= n <= headers.len(),
    ensures
        all_named(headers.take(n), name).len() <= all_named(headers, name).len(),
    decreases headers.len() - n,
{
    if n == headers.len() {
        assert(headers.take(n) =~= headers);
    } else {
        assert(headers.take(n + 1).drop_last() =~= headers.take(n));
        lemma_all_named_grows(headers, n + 1, name);
    }
}

/// Tells why a message cannot be signed for a domain, if it cannot.
pub fn check_from(domain: &str, headers: &[Header]) -> (r: Result<(), String>)
    ensures
        match r {
            Ok(()) => refusal(domain@, fields(headers@)) is None,
            Err(error) => refusal(domain@, fields(headers@)) == Some(error@),
        },
{
    let from = match only_from(headers) {
        Some(from) => from,
        None => return Err("message must contain exactly one From header".to_owned()),
    };
    let found = match from_domain(headers[from].value.as_slice()) {
        Some(found) => found,
        None => return Err("cannot extract a single From domain".to_owned()),
    };
    let found_chars = chars_of(found.as_str());
    let domain_chars = chars_of(domain);
    let found_lower = to_lower(found_chars.as_slice());
    let domain_lower = to_lower(domain_chars.as_slice());
    if is_text(found_lower.as_slice(), string_of(domain_lower.as_slice()).as_str()) {
        Ok(())
    } else {
        Err("From domain does not match configured domain".to_owned())
    }
}

fn names_and_bytes(headers: &[Header]) -> (r: (String, Vec<u8>))
    ensures
        r.0@ == join(tag_names(fields(headers@), signed_headers()), ":"@),
        r.1@ == header_bytes(fields(headers@), signed_headers()),
{
    let names = signed_header_names();
    let ghost all = signed_headers();
    let mut listed = String::new();
    let mut empty: bool = true;
    let mut bytes: Vec<u8> = Vec::new();
    let mut i: usize = 0;
    assert(all.take(0) =~= Seq::empty());
    while i < 13
        invariant
            i <= 13,
            all == signed_headers(),
            forall|j: int| 0 <= j < 13 ==> (#[trigger] names@[j])@ == all[j],
            empty == (tag_names(fields(headers@), all.take(i as int)).len() == 0),
            listed@ == join(tag_names(fields(headers@), all.take(i as int)), ":"@),
            bytes@ == header_bytes(fields(headers@), all.take(i as int)),
        decreases 13 - i,
    {
        let name = names[i];
        let ghost before = tag_names(fields(headers@), all.take(i as int));
        assert(all.take(i + 1).drop_last() =~= all.take(i as int));
        assert(all.take(i + 1).last() == name@);
        let ghost mut now = before;
        if let Some(k) = find_last(headers, name) {
            let header = &headers[k];
            let relaxed = canonicalize_header(header.name.as_slice(), header.value.as_slice());
            bytes.extend_from_slice(relaxed.as_slice());
            assert(bytes@ =~= header_bytes(fields(headers@), all.take(i as int)) + relaxed@);
            proof {
                now = before.push(name@);
                lemma_join_push(before, name@, ":"@);
            }
            if !empty {
                listed.append(":");
            }
            listed.append(name);
            empty = false;
            assert(listed@ =~= join(now, ":"@));
        }
        let chars = chars_of(name);
        if is_text(chars.as_slice(), "from") {
            proof {
                lemma_join_push(now, "from"@, ":"@);
                now = now.push("from"@);
            }
            if !empty {
                listed.append(":");
            }
            listed.append("from");
            empty = false;
            assert(listed@ =~= join(now, ":"@));
        }
        i += 1;
        assert(now == tag_names(fields(headers@), all.take(i as int)));
    }
    assert(all.take(13) =~= all);
    (listed, bytes)
}

proof fn lemma_join_push(parts: Seq<Seq<char>>, part: Seq<char>, sep: Seq<char>)
    ensures
        join(parts.push(part), sep) == if parts.len() == 0 {
            part
        } else {
            join(parts, sep) + sep + part
        },
{
    assert(parts.push(part).drop_last() =~= parts);
}

/// What is to be signed for a message at a time, or why the message is not signed.
pub fn signing_input(
    config: &RuntimeConfig,
    headers: &[Header],
    body_hash: [u8; 32],
    time: u64,
) -> (r: Result<SigningInput, String>)
    ensures
        match r {
            Ok(input) => refusal(config.domain@, fields(headers@)) is None && input@ == signing_view(
                config.domain@,
                config.selector@,
                fields(headers@),
                body_hash@,
                time,
            ),
            Err(error) => refusal(config.domain@, fields(headers@)) == Some(error@),
        },
{
    match check_from(config.domain.as_str(), headers) {
        Ok(()) => {},
        Err(error) => return Err(error),
    }
    let (names, bytes) = names_and_bytes(headers);
    let mut unsigned = concat2(
        "v=1; a=rsa-sha256; c=relaxed/relaxed; d=",
        config.domain.as_str(),
    );
    unsigned.append("; s=");
    unsigned.append(config.selector.as_str());
    unsigned.append("; t=");
    unsigned.append(decimal_of(time).as_str());
    unsigned.append("; h=");
    unsigned.append(names.as_str());
    unsigned.append("; bh=");
    unsigned.append(base64_of(&body_hash).as_str());
    unsigned.append("; b=");
    let signature_bytes = canonicalize_signature_header(unsigned.as_str().as_bytes());
    Ok(SigningInput { unsigned, header_bytes: bytes, signature_bytes })
}

/// The finished value of a signature header.
pub fn signed_value(unsigned: &str, signature: &[u8]) -> (r: String)
    ensures
        r@ == folded_text(unsigned@ + base64_text(signature@)),
{
    let text = concat2(unsigned, base64_of(signature).as_str());
    fold_signature(text.as_str())
}

/// A value that `sign` may give: a signature, made with the key, of what is to be signed at some
/// time, put after the text that was signed, and folded.
pub open spec fn is_signed_value(
    config: RuntimeConfig,
    headers: Seq<HeaderView>,
    body_hash: Seq<u8>,
    time: u64,
    signature: Seq<u8>,
    value: Seq<char>,
) -> bool {
    let input = signing_view(config.domain@, config.selector@, headers, body_hash, time);
    &&& is_signature(
        key_contents(*config.key),
        input.header_bytes + input.signature_bytes,
        signature,
    )
    &&& value == folded_text(input.unsigned + base64_text(signature))
}

/// A value that `sign` may give at some time.
pub open spec fn may_sign(
    config: RuntimeConfig,
    headers: Seq<HeaderView>,
    body_hash: Seq<u8>,
    value: Seq<char>,
) -> bool {
    exists|time: u64, signature: Seq<u8>| #[trigger]
        is_signed_value(config, headers, body_hash, time, signature, value)
}

/// Why signing can fail for a message that is fit to be signed.
pub open spec fn is_signing_failure(error: Seq<char>) -> bool {
    ||| error == "system clock is before Unix epoch"@
    ||| starts_with(error, "cannot initialize RSA-SHA256 signer: "@)
    ||| starts_with(error, "cannot hash header: "@)
    ||| starts_with(error, "cannot hash DKIM-Signature: "@)
    ||| starts_with(error, "RSA-SHA256 signing failed: "@)
}

/// What `sign` may give for a message.
pub open spec fn is_outcome(
    config: RuntimeConfig,
    headers: Seq<HeaderView>,
    body_hash: Seq<u8>,
    outcome: Result<Seq<char>, Seq<char>>,
) -> bool {
    match outcome {
        Ok(value) => refusal(config.domain@, headers) is None && may_sign(
            config,
            headers,
            body_hash,
            value,
        ),
        Err(error) => match refusal(config.domain@, headers) {
            Some(why) => error == why,
            None => is_signing_failure(error),
        },
    }
}

/// Signs a message: the value of its DKIM-Signature header.
pub fn sign(config: &RuntimeConfig, headers: &[Header], body_hash: [u8; 32]) -> (r: Result<
    String,
    String,
>)
    ensures
        is_outcome(*config, fields(headers@), body_hash@, text_result(r)),
{
    match check_from(config.domain.as_str(), headers) {
        Ok(()) => {},
        Err(error) => return Err(error),
    }
    let time = match unix_seconds() {
        Some(time) => time,
        None => return Err("system clock is before Unix epoch".to_owned()),
    };
    let input = match signing_input(config, headers, body_hash, time) {
        Ok(input) => input,
        Err(error) => return Err(error),
    };
    let mut signer = match signer_of(&config.key) {
        Ok(signer) => signer,
        Err(error) => return Err(with_cause("cannot initialize RSA-SHA256 signer: ", &error)),
    };
    match signer_update(&mut signer, input.header_bytes.as_slice()) {
        Ok(()) => {},
        Err(error) => return Err(with_cause("cannot hash header: ", &error)),
    }
    match signer_update(&mut signer, input.signature_bytes.as_slice()) {
        Ok(()) => {},
        Err(error) => return Err(with_cause("cannot hash DKIM-Signature: ", &error)),
    }
    let signature = match signer_finish(&signer) {
        Ok(signature) => signature,
        Err(error) => return Err(with_cause("RSA-SHA256 signing failed: ", &error)),
    };
    let value = signed_value(input.unsigned.as_str(), signature.as_slice());
    assert(signer_input(signer) =~= input.header_bytes@ + input.signature_bytes@);
    assert(is_signed_value(*config, fields(headers@), body_hash@, time, signature@, value@));
    assert(may_sign(*config, fields(headers@), body_hash@, value@));
    Ok(value)
}

/// The signature holds for the header as it is sent. Without the text of the signature, its
/// relaxed form is what was signed last, so folding does not break the signature.
pub proof fn law_signature_holds_as_sent(
    config: RuntimeConfig,
    headers: Seq<HeaderView>,
    body_hash: Seq<u8>,
    time: u64,
    signature: Seq<u8>,
    value: Seq<char>,
)
    requires
        is_signed_value(config, headers, body_hash, time, signature, value),
    ensures
        exists|start: Seq<char>|
            value == #[trigger] (start + base64_text(signature)) && is_signature(
                key_contents(*config.key),
                header_bytes(headers, signed_headers()) + signature_header_bytes(
                    encode_utf8(start),
                ),
                signature,
            ),
{
    let unsigned = unsigned_text(
        config.domain@,
        config.selector@,
        time,
        tag_names(headers, signed_headers()),
        body_hash,
    );
    lemma_base64_is_plain(signature);
    law_folding_keeps_last_word(unsigned, base64_text(signature));
}

/// The last field of a name is a field of that name, and no later field is.
pub proof fn law_last_instance_is_signed(headers: Seq<HeaderView>, name: Seq<char>)
    ensures
        match last_named(headers, name) {
            Some(header) => exists|i: int|
                0 <= i < headers.len() && header == #[trigger] headers[i] && header.named(name)
                    && forall|j: int| i < j < headers.len() ==> !(#[trigger] headers[j]).named(
                    name,
                ),
            None => forall|j: int|
                0 <= j < headers.len() ==> !(#[trigger] headers[j]).named(name),
        },
    decreases headers.len(),
{
    if headers.len() != 0 {
        if headers.last().named(name) {
            assert(headers.last() == headers[headers.len() - 1]);
        } else {
            let front = headers.drop_last();
            law_last_instance_is_signed(front, name);
            assert forall|j: int| 0 <= j < headers.len() && j != headers.len()
                - 1 implies headers[j] == #[trigger] front[j] by {}
            match last_named(front, name) {
                Some(header) => {
                    let i = choose|i: int|
                        0 <= i < front.len() && header == #[trigger] front[i] && header.named(name)
                            && forall|j: int| i < j < front.len() ==> !(#[trigger] front[j]).named(
                            name,
                        );
                    assert(header == headers[i]);
                    assert forall|j: int| i < j < headers.len() implies !(
                    #[trigger] headers[j]).named(name) by {
                        if j < front.len() {
                            assert(!front[j].named(name));
                        }
                    }
                },
                None => {
                    assert forall|j: int| 0 <= j < headers.len() implies !(
                    #[trigger] headers[j]).named(name) by {
                        if j < front.len() {
                            assert(!front[j].named(name));
                        }
                    }
                },
            }
        }
    }
}

proof fn lemma_only_is_last(headers: Seq<HeaderView>, name: Seq<char>)
    ensures
        all_named(headers, name).len() == 0 <==> last_named(headers, name) is None,
        all_named(headers, name).len() != 0 ==> last_named(headers, name) == Some(
            all_named(headers, name).last(),
        ),
    decreases headers.len(),
{
    if headers.len() != 0 {
        lemma_only_is_last(headers.drop_last(), name);
    }
}

proof fn lemma_names_distinct()
    ensures
        forall|i: int| 0 < i < 13 ==> #[trigger] signed_headers()[i] != "from"@,
{
    reveal_strlit("from");
    reveal_strlit("sender");
    reveal_strlit("reply-to");
    reveal_strlit("subject");
    reveal_strlit("date");
    reveal_strlit("message-id");
    reveal_strlit("to");
    reveal_strlit("cc");
    reveal_strlit("mime-version");
    reveal_strlit("content-type");
    reveal_strlit("content-transfer-encoding");
    reveal_strlit("in-reply-to");
    reveal_strlit("references");
    assert("date"@[0] != "from"@[0]);
}

proof fn lemma_from_first(headers: Seq<HeaderView>, n: int)
    requires
        1 <= n <= 13,
        last_named(headers, "from"@) is Some,
    ensures
        ({
            let names = tag_names(headers, signed_headers().take(n));
            &&& names.len() >= 2
            &&& names[0] == "from"@
            &&& names[1] == "from"@
            &&& forall|i: int| 2 <= i < names.len() ==> #[trigger] names[i] != "from"@
        }),
        exists|rest: Seq<u8>|
            header_bytes(headers, signed_headers().take(n)) == #[trigger] (relaxed_header(
                last_named(headers, "from"@)->0.name,
                last_named(headers, "from"@)->0.value,
            ) + rest),
    decreases n,
{
    let all = signed_headers();
    let from = last_named(headers, "from"@)->0;
    let first = relaxed_header(from.name, from.value);
    let here = all.take(n);
    assert(here.drop_last() =~= all.take(n - 1));
    assert(here.last() == all[n - 1]);
    if n == 1 {
        assert(here.drop_last() =~= Seq::empty());
        assert(here.last() == "from"@);
        assert(header_bytes(headers, here.drop_last()) == Seq::<u8>::empty());
        assert(tag_names(headers, here.drop_last()) == Seq::<Seq<char>>::empty());
        assert(header_bytes(headers, here) == Seq::<u8>::empty() + first);
        assert(Seq::<u8>::empty() + first =~= first + Seq::<u8>::empty());
    } else {
        lemma_names_distinct();
        lemma_from_first(headers, n - 1);
        let rest = choose|rest: Seq<u8>|
            header_bytes(headers, all.take(n - 1)) == #[trigger] (first + rest);
        match last_named(headers, all[n - 1]) {
            Some(header) => {
                let more = relaxed_header(header.name, header.value);
                assert(header_bytes(headers, here) =~= first + (rest + more));
            },
            None => {
                assert(header_bytes(headers, here) =~= first + rest);
            },
        }
    }
}

/// From is oversigned. In a message that is fit to be signed, the one From field is signed
/// first, and the tag lists From exactly twice, so that a second From breaks the signature.
pub proof fn law_from_is_oversigned(domain: Seq<char>, headers: Seq<HeaderView>)
    requires
        refusal(domain, headers) is None,
    ensures
        ({
            let names = tag_names(headers, signed_headers());
            let from = all_named(headers, "from"@)[0];
            &&& names.len() >= 2
            &&& names[0] == "from"@
            &&& names[1] == "from"@
            &&& forall|i: int| 2 <= i < names.len() ==> #[trigger] names[i] != "from"@
            &&& exists|rest: Seq<u8>|
                header_bytes(headers, signed_headers()) == #[trigger] (relaxed_header(
                    from.name,
                    from.value,
                ) + rest)
        }),
{
    lemma_only_is_last(headers, "from"@);
    lemma_from_first(headers, 13);
    assert(signed_headers().take(13) =~= signed_headers());
}

proof fn lemma_field_without_name(
    before: Seq<HeaderView>,
    field: HeaderView,
    after: Seq<HeaderView>,
    name: Seq<char>,
)
    requires
        !field.named(name),
    ensures
        all_named(before.push(field) + after, name) == all_named(before + after, name),
        last_named(before.push(field) + after, name) == last_named(before + after, name),
    decreases after.len(),
{
    let more = before.push(field) + after;
    let plain = before + after;
    if after.len() == 0 {
        assert(more =~= before.push(field));
        assert(more.drop_last() =~= before);
        assert(plain =~= before);
    } else {
        lemma_field_without_name(before, field, after.drop_last(), name);
        assert(more.drop_last() =~= before.push(field) + after.drop_last());
        assert(plain.drop_last() =~= before + after.drop_last());
        assert(more.last() == after.last() && plain.last() == after.last());
    }
}

proof fn lemma_neighbours(
    before: Seq<HeaderView>,
    x: HeaderView,
    y: HeaderView,
    after: Seq<HeaderView>,
    name: Seq<char>,
)
    requires
        lower_bytes(x.name) != lower_bytes(y.name),
    ensures
        all_named(before.push(x).push(y) + after, name) == all_named(
            before.push(y).push(x) + after,
            name,
        ),
        last_named(before.push(x).push(y) + after, name) == last_named(
            before.push(y).push(x) + after,
            name,
        ),
{
    if x.named(name) {
        lemma_field_without_name(before.push(x), y, after, name);
        lemma_field_without_name(before, y, seq![x] + after, name);
        assert(before.push(y) + (seq![x] + after) =~= before.push(y).push(x) + after);
        assert(before + (seq![x] + after) =~= before.push(x) + after);
    } else {
        lemma_field_without_name(before.push(y), x, after, name);
        lemma_field_without_name(before, x, seq![y] + after, name);
        assert(before.push(x) + (seq![y] + after) =~= before.push(x).push(y) + after);
        assert(before + (seq![y] + after) =~= before.push(y) + after);
    }
}

proof fn lemma_same_fields(a: Seq<HeaderView>, b: Seq<HeaderView>, names: Seq<Seq<char>>)
    requires
        forall|i: int|
            0 <= i < names.len() ==> last_named(a, #[trigger] names[i]) == last_named(b, names[i]),
    ensures
        tag_names(a, names) == tag_names(b, names),
        header_bytes(a, names) == header_bytes(b, names),
    decreases names.len(),
{
    if names.len() > 0 {
        let front = names.drop_last();
        assert forall|i: int| 0 <= i < front.len() implies last_named(a, #[trigger] front[i])
            == last_named(b, front[i]) by {
            assert(front[i] == names[i]);
        }
        lemma_same_fields(a, b, front);
        assert(names.last() == names[names.len() - 1]);
    }
}

/// A field that is not among those that are signed, wherever it stands, makes no difference to
/// whether a message is signed and to what is signed.
pub proof fn law_other_fields_do_not_matter(
    domain: Seq<char>,
    selector: Seq<char>,
    before: Seq<HeaderView>,
    field: HeaderView,
    after: Seq<HeaderView>,
    body_hash: Seq<u8>,
    time: u64,
)
    requires
        forall|i: int|
            0 <= i < signed_headers().len() ==> !field.named(#[trigger] signed_headers()[i]),
    ensures
        refusal(domain, before.push(field) + after) == refusal(domain, before + after),
        signing_view(domain, selector, before.push(field) + after, body_hash, time)
            == signing_view(domain, selector, before + after, body_hash, time),
{
    let names = signed_headers();
    assert(names[0] == "from"@);
    lemma_field_without_name(before, field, after, "from"@);
    assert forall|i: int| 0 <= i < names.len() implies last_named(
        before.push(field) + after,
        #[trigger] names[i],
    ) == last_named(before + after, names[i]) by {
        lemma_field_without_name(before, field, after, names[i]);
    }
    lemma_same_fields(before.push(field) + after, before + after, names);
}

/// The order of two neighbours with different names makes no difference to whether a message is
/// signed and to what is signed.
pub proof fn law_order_of_different_fields_does_not_matter(
    domain: Seq<char>,
    selector: Seq<char>,
    before: Seq<HeaderView>,
    x: HeaderView,
    y: HeaderView,
    after: Seq<HeaderView>,
    body_hash: Seq<u8>,
    time: u64,
)
    requires
        lower_bytes(x.name) != lower_bytes(y.name),
    ensures
        refusal(domain, before.push(x).push(y) + after) == refusal(
            domain,
            before.push(y).push(x) + after,
        ),
        signing_view(domain, selector, before.push(x).push(y) + after, body_hash, time)
            == signing_view(domain, selector, before.push(y).push(x) + after, body_hash, time),
{
    let names = signed_headers();
    let a = before.push(x).push(y) + after;
    let b = before.push(y).push(x) + after;
    lemma_neighbours(before, x, y, after, "from"@);
    assert forall|i: int| 0 <= i < names.len() implies last_named(a, #[trigger] names[i])
        == last_named(b, names[i]) by {
        lemma_neighbours(before, x, y, after, names[i]);
    }
    lemma_same_fields(a, b, names);
}

// What is listed and what is signed.

/// The relaxed form of the last field of a name.
pub open spec fn field_form(headers: Seq<HeaderView>, name: Seq<char>) -> Seq<u8> {
    let field = last_named(headers, name)->0;
    relaxed_header(field.name, field.value)
}

proof fn lemma_listed_and_signed(headers: Seq<HeaderView>, names: Seq<Seq<char>>)
    requires
        last_named(headers, "from"@) is Some,
        !names.contains("from"@),
    ensures
        ({
            let there = names.filter(|n: Seq<char>| last_named(headers, n) is Some);
            &&& tag_names(headers, seq!["from"@] + names) == seq!["from"@, "from"@] + there
            &&& header_bytes(headers, seq!["from"@] + names) == field_form(headers, "from"@)
                + there.map_values(|n: Seq<char>| field_form(headers, n)).flatten()
        }),
    decreases names.len(),
{
    reveal(Seq::filter);
    let p = |n: Seq<char>| last_named(headers, n) is Some;
    let f = |n: Seq<char>| field_form(headers, n);
    let all = seq!["from"@] + names;
    let there = names.filter(p);
    if names.len() == 0 {
        assert(all.drop_last() =~= Seq::empty());
        assert(all.last() == "from"@);
        assert(tag_names(headers, all.drop_last()) == Seq::<Seq<char>>::empty());
        assert(header_bytes(headers, all.drop_last()) == Seq::<u8>::empty());
        assert(there =~= Seq::empty());
        assert(there.map_values(f) =~= Seq::empty());
        assert(tag_names(headers, all) =~= seq!["from"@, "from"@] + there);
        assert(header_bytes(headers, all) =~= field_form(headers, "from"@) + there.map_values(
            f,
        ).flatten());
    } else {
        let front = names.drop_last();
        let name = names.last();
        let inner = front.filter(p);
        assert(names.contains(names[names.len() - 1]));
        assert forall|x: Seq<char>| front.contains(x) implies names.contains(x) by {
            let k = choose|k: int| 0 <= k < front.len() && front[k] == x;
            assert(names[k] == x);
        }
        lemma_listed_and_signed(headers, front);
        assert(all.drop_last() =~= seq!["from"@] + front);
        assert(all.last() == name);
        if p(name) {
            assert(there == inner.push(name));
            inner.map_values(f).lemma_flatten_push(f(name));
            assert(there.map_values(f) =~= inner.map_values(f).push(f(name)));
        }
        assert(tag_names(headers, all) =~= seq!["from"@, "from"@] + there);
        assert(header_bytes(headers, all) =~= field_form(headers, "from"@) + there.map_values(
            f,
        ).flatten());
    }
}

proof fn lemma_from_is_no_other()
    ensures
        !seq![
        "sender"@,
        "reply-to"@,
        "subject"@,
        "date"@,
        "message-id"@,
        "to"@,
        "cc"@,
        "mime-version"@,
        "content-type"@,
        "content-transfer-encoding"@,
        "in-reply-to"@,
        "references"@,
        ].contains("from"@),
{
    reveal_strlit("from");
    reveal_strlit("sender");
    reveal_strlit("reply-to");
    reveal_strlit("subject");
    reveal_strlit("date");
    reveal_strlit("message-id");
    reveal_strlit("to");
    reveal_strlit("cc");
    reveal_strlit("mime-version");
    reveal_strlit("content-type");
    reveal_strlit("content-transfer-encoding");
    reveal_strlit("in-reply-to");
    reveal_strlit("references");
    let others = seq![
        "sender"@,
        "reply-to"@,
        "subject"@,
        "date"@,
        "message-id"@,
        "to"@,
        "cc"@,
        "mime-version"@,
        "content-type"@,
        "content-transfer-encoding"@,
        "in-reply-to"@,
        "references"@,
    ];
    assert("date"@[0] == 'd');
    assert forall|i: int| 0 <= i < others.len() implies others[i] != "from"@ by {
        assert(others[i][0] != 'f');
    }
}

/// What is listed and what is signed agree. In a message with a From field, the tag lists From
/// twice, and after it those of the other twelve names, in their order, that the message has. What
/// is signed is, in the same order, the relaxed form of the last field of each name that is
/// listed; the second From adds nothing.
pub proof fn law_listed_fields_are_signed(headers: Seq<HeaderView>)
    requires
        last_named(headers, "from"@) is Some,
    ensures
        ({
            let others = seq![
                "sender"@,
                "reply-to"@,
                "subject"@,
                "date"@,
                "message-id"@,
                "to"@,
                "cc"@,
                "mime-version"@,
                "content-type"@,
                "content-transfer-encoding"@,
                "in-reply-to"@,
                "references"@,
            ].filter(|n: Seq<char>| last_named(headers, n) is Some);
            &&& tag_names(headers, signed_headers()) == seq!["from"@, "from"@] + others
            &&& header_bytes(headers, signed_headers()) == field_form(headers, "from"@)
                + others.map_values(|n: Seq<char>| field_form(headers, n)).flatten()
        }),
{
    let others = seq![
        "sender"@,
        "reply-to"@,
        "subject"@,
        "date"@,
        "message-id"@,
        "to"@,
        "cc"@,
        "mime-version"@,
        "content-type"@,
        "content-transfer-encoding"@,
        "in-reply-to"@,
        "references"@,
    ];
    lemma_from_is_no_other();
    lemma_listed_and_signed(headers, others);
    assert(signed_headers() =~= seq!["from"@] + others);
}

/// The fields of a name are all fields that have it, in their order.
pub proof fn law_all_fields_of_a_name_count(headers: Seq<HeaderView>, name: Seq<char>)
    ensures
        all_named(headers, name) == headers.filter(|h: HeaderView| h.named(name)),
    decreases headers.len(),
{
    reveal(Seq::filter);
    if headers.len() > 0 {
        law_all_fields_of_a_name_count(headers.drop_last(), name);
    } else {
        assert(headers =~= Seq::empty());
    }
}

/// A message is fit to be signed if and only if it has exactly one From field, whose domain is
/// found and is the configured one, whatever the case of its letters.
pub proof fn law_fit_messages_are_not_refused(domain: Seq<char>, headers: Seq<HeaderView>)
    ensures
        refusal(domain, headers) is None <==> {
            let froms = headers.filter(|h: HeaderView| h.named("from"@));
            &&& froms.len() == 1
            &&& from_domain_of(froms[0].value) matches Some(found) && lowered(found) == lowered(
                domain,
            )
        },
{
    law_all_fields_of_a_name_count(headers, "from"@);
}

/// The signature header is signed under its name in lower case, with its relaxed value, and
/// without a line end.
pub proof fn law_signature_headers_are_signed_without_line_end(value: Seq<u8>)
    ensures
        signature_header_bytes(value) == encode_utf8("dkim-signature:"@) + relaxed_value(value),
{
    let upper = "DKIM-Signature"@;
    let lower = "dkim-signature:"@;
    reveal_strlit("DKIM-Signature");
    reveal_strlit("dkim-signature:");
    assert(is_ascii_chars(upper));
    assert(is_ascii_chars(lower));
    is_ascii_chars_encode_utf8(upper);
    is_ascii_chars_encode_utf8(lower);
    let left = lower_bytes(encode_utf8(upper)).push(COLON);
    let right = encode_utf8(lower);
    assert(left.len() == 15 && right.len() == 15);
    assert forall|i: int| 0 <= i < 15 implies left[i] == right[i] by {
        assert(right[i] == lower[i] as u8);
        if i < 14 {
            assert(encode_utf8(upper)[i] == upper[i] as u8);
        }
    }
    assert(left =~= right);
}

proof fn lemma_decimal_is_plain(n: nat)
    ensures
        !decimal(n).contains(';'),
    decreases n,
{
    if n >= 10 {
        lemma_decimal_is_plain(n / 10);
        let d = decimal(n);
        if d.contains(';') {
            let k = choose|k: int| 0 <= k < d.len() && d[k] == ';';
            if k < d.len() - 1 {
                assert(decimal(n / 10)[k] == ';');
            }
        }
    }
}

proof fn lemma_join_lacks(parts: Seq<Seq<char>>, sep: Seq<char>, c: char)
    requires
        !sep.contains(c),
        forall|i: int| 0 <= i < parts.len() ==> !(#[trigger] parts[i]).contains(c),
    ensures
        !join(parts, sep).contains(c),
    decreases parts.len(),
{
    if parts.len() > 1 {
        let front = parts.drop_last();
        assert forall|i: int| 0 <= i < front.len() implies !(#[trigger] front[i]).contains(c) by {
            assert(front[i] == parts[i]);
        }
        lemma_join_lacks(front, sep, c);
        lemma_add_lacks(join(front, sep), sep, c);
        assert(parts.last() == parts[parts.len() - 1]);
        lemma_add_lacks(join(front, sep) + sep, parts.last(), c);
    }
}

proof fn lemma_add_lacks(a: Seq<char>, b: Seq<char>, c: char)
    requires
        !a.contains(c),
        !b.contains(c),
    ensures
        !(a + b).contains(c),
{
    if (a + b).contains(c) {
        let k = choose|k: int| 0 <= k < (a + b).len() && (a + b)[k] == c;
        if k < a.len() {
            assert(a[k] == c);
        } else {
            assert(b[k - a.len()] == c);
        }
    }
}

proof fn lemma_names_are_plain(headers: Seq<HeaderView>, n: int)
    requires
        0 <= n <= 13,
    ensures
        forall|i: int|
            0 <= i < tag_names(headers, signed_headers().take(n)).len() ==> !(#[trigger] tag_names(
                headers,
                signed_headers().take(n),
            )[i]).contains(';'),
    decreases n,
{
    let all = signed_headers();
    let names = tag_names(headers, all.take(n));
    if n == 0 {
        assert(all.take(0) =~= Seq::empty());
        assert(names.len() == 0);
    } else {
        lemma_names_are_plain(headers, n - 1);
        assert(all.take(n).drop_last() =~= all.take(n - 1));
        assert(all.take(n).last() == all[n - 1]);
        reveal_strlit("from");
        reveal_strlit("sender");
        reveal_strlit("reply-to");
        reveal_strlit("subject");
        reveal_strlit("date");
        reveal_strlit("message-id");
        reveal_strlit("to");
        reveal_strlit("cc");
        reveal_strlit("mime-version");
        reveal_strlit("content-type");
        reveal_strlit("content-transfer-encoding");
        reveal_strlit("in-reply-to");
        reveal_strlit("references");
        assert(!"from"@.contains(';'));
        assert(!all[n - 1].contains(';'));
        let before = tag_names(headers, all.take(n - 1));
        assert forall|i: int| 0 <= i < names.len() implies !(#[trigger] names[i]).contains(';') by {
            if i < before.len() {
                assert(names[i] == before[i]);
            } else {
                assert(names[i] == all[n - 1] || names[i] == "from"@);
            }
        }
    }
}

/// The signature header holds its nine tags, parted by semicolons: the version, RSA-SHA256, relaxed
/// form of header and body, the domain, the selector, the time, the names, the hash of the body,
/// and the signature, which is still empty.
pub proof fn law_signature_headers_have_nine_tags(
    domain: Seq<char>,
    selector: Seq<char>,
    headers: Seq<HeaderView>,
    body_hash: Seq<u8>,
    time: u64,
)
    requires
        !domain.contains(';'),
        !selector.contains(';'),
    ensures
        split(signing_view(domain, selector, headers, body_hash, time).unsigned, ';') == seq![
            "v=1"@,
            " a=rsa-sha256"@,
            " c=relaxed/relaxed"@,
            " d="@ + domain,
            " s="@ + selector,
            " t="@ + decimal(time as nat),
            " h="@ + join(tag_names(headers, signed_headers()), seq![':']),
            " bh="@ + base64_text(body_hash),
            " b="@,
        ],
{
    let names = tag_names(headers, signed_headers());
    let listed = join(names, ":"@);
    reveal_strlit(":");
    assert(":"@ =~= seq![':']);
    assert(!":"@.contains(';'));
    lemma_names_are_plain(headers, 13);
    assert(signed_headers().take(13) =~= signed_headers());
    lemma_join_lacks(names, ":"@, ';');
    lemma_decimal_is_plain(time as nat);
    lemma_base64_is_plain(body_hash);
    lemma_nine_tags(domain, selector, decimal(time as nat), listed, base64_text(body_hash));
}

proof fn lemma_first_tags()
    ensures
        "v=1; a=rsa-sha256; c=relaxed/relaxed; d="@ == "v=1"@ + seq![';'] + " a=rsa-sha256"@ + seq![
            ';',
        ] + " c=relaxed/relaxed"@ + seq![';'] + " d="@,
        !"v=1"@.contains(';'),
        !" a=rsa-sha256"@.contains(';'),
        !" c=relaxed/relaxed"@.contains(';'),
        !" d="@.contains(';'),
{
    reveal_strlit("v=1");
    reveal_strlit(" a=rsa-sha256");
    reveal_strlit(" c=relaxed/relaxed");
    reveal_strlit(" d=");
    reveal_strlit("v=1; a=rsa-sha256; c=relaxed/relaxed; d=");
    assert("v=1; a=rsa-sha256; c=relaxed/relaxed; d="@ =~= "v=1"@ + seq![';'] + " a=rsa-sha256"@
        + seq![';'] + " c=relaxed/relaxed"@ + seq![';'] + " d="@);
}

proof fn lemma_last_tags()
    ensures
        "; s="@ == seq![';'] + " s="@,
        "; t="@ == seq![';'] + " t="@,
        "; h="@ == seq![';'] + " h="@,
        "; bh="@ == seq![';'] + " bh="@,
        "; b="@ == seq![';'] + " b="@,
        !" s="@.contains(';'),
        !" t="@.contains(';'),
        !" h="@.contains(';'),
        !" bh="@.contains(';'),
        !" b="@.contains(';'),
{
    reveal_strlit(" s=");
    reveal_strlit(" t=");
    reveal_strlit(" h=");
    reveal_strlit(" bh=");
    reveal_strlit(" b=");
    reveal_strlit("; s=");
    reveal_strlit("; t=");
    reveal_strlit("; h=");
    reveal_strlit("; bh=");
    reveal_strlit("; b=");
    assert("; s="@ =~= seq![';'] + " s="@);
    assert("; t="@ =~= seq![';'] + " t="@);
    assert("; h="@ =~= seq![';'] + " h="@);
    assert("; bh="@ =~= seq![';'] + " bh="@);
    assert("; b="@ =~= seq![';'] + " b="@);
}

proof fn lemma_nine_tags(
    domain: Seq<char>,
    selector: Seq<char>,
    time: Seq<char>,
    listed: Seq<char>,
    hash: Seq<char>,
)
    requires
        !domain.contains(';'),
        !selector.contains(';'),
        !time.contains(';'),
        !listed.contains(';'),
        !hash.contains(';'),
    ensures
        split(
            "v=1; a=rsa-sha256; c=relaxed/relaxed; d="@ + domain + "; s="@ + selector + "; t="@
                + time + "; h="@ + listed + "; bh="@ + hash + "; b="@,
            ';',
        ) == seq![
            "v=1"@,
            " a=rsa-sha256"@,
            " c=relaxed/relaxed"@,
            " d="@ + domain,
            " s="@ + selector,
            " t="@ + time,
            " h="@ + listed,
            " bh="@ + hash,
            " b="@,
        ],
{
    let (v, a, c) = ("v=1"@, " a=rsa-sha256"@, " c=relaxed/relaxed"@);
    let d = " d="@ + domain;
    let s = " s="@ + selector;
    let t = " t="@ + time;
    let h = " h="@ + listed;
    let bh = " bh="@ + hash;
    let b = " b="@;
    lemma_first_tags();
    lemma_last_tags();
    lemma_add_lacks(" d="@, domain, ';');
    lemma_add_lacks(" s="@, selector, ';');
    lemma_add_lacks(" t="@, time, ';');
    lemma_add_lacks(" h="@, listed, ';');
    lemma_add_lacks(" bh="@, hash, ';');
    let pieces = seq![v, a, c, d, s, t, h, bh, b];
    lemma_split_join(pieces, ';');
    lemma_join_nine(v, a, c, d, s, t, h, bh, b);
    let sep = seq![';'];
    let text = "v=1; a=rsa-sha256; c=relaxed/relaxed; d="@ + domain + "; s="@ + selector + "; t="@
        + time + "; h="@ + listed + "; bh="@ + hash + "; b="@;
    assert(text =~= v + sep + a + sep + c + sep + d + sep + s + sep + t + sep + h + sep + bh + sep
        + b);
}

proof fn lemma_join_nine(
    v: Seq<char>,
    a: Seq<char>,
    c: Seq<char>,
    d: Seq<char>,
    s: Seq<char>,
    t: Seq<char>,
    h: Seq<char>,
    bh: Seq<char>,
    b: Seq<char>,
)
    ensures
        join(seq![v, a, c, d, s, t, h, bh, b], seq![';']) == v + seq![';'] + a + seq![';'] + c + seq![';']
            + d + seq![';'] + s + seq![';'] + t + seq![';'] + h + seq![';'] + bh + seq![';'] + b,
{
    assert(seq![v, a, c, d, s, t, h, bh, b].drop_last() =~= seq![v, a, c, d, s, t, h, bh]);
    assert(seq![v, a, c, d, s, t, h, bh].drop_last() =~= seq![v, a, c, d, s, t, h]);
    assert(seq![v, a, c, d, s, t, h].drop_last() =~= seq![v, a, c, d, s, t]);
    assert(seq![v, a, c, d, s, t].drop_last() =~= seq![v, a, c, d, s]);
    assert(seq![v, a, c, d, s].drop_last() =~= seq![v, a, c, d]);
    assert(seq![v, a, c, d].drop_last() =~= seq![v, a, c]);
    assert(seq![v, a, c].drop_last() =~= seq![v, a]);
    assert(seq![v, a].drop_last() =~= seq![v]);
    reveal_with_fuel(join, 10);
}

} // verus!
