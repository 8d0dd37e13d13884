//! Making a key, and the DNS record that publishes it.

use openssl::pkey::{PKey, Private};
use vstd::prelude::*;
use vstd::slice::*;
use vstd::string::StringExecFns;

use crate::config::{
    check_fips_environment, dns_form, dns_name_of, fips_error, is_dns_name, is_usable_key,
    validate_dns_name, validate_key, with_cause, KernelFips,
};
use crate::crypto::{
    base64_of, base64_text, is_encrypted, key_bits, key_contents, lemma_base64_is_plain, make_key,
    pem_key, pkcs8_pem, private_pem, public_der, public_key_der, rsa_context, set_keygen_bits, start_keygen,
};
use crate::settings::is_absolute;
use crate::text::{
    chars_of, concat2, decimal, decimal_of, find, join, lemma_find, lemma_find_is,
    lemma_join_front, starts_with, string_of,
};

verus! {

pub struct GenerateOptions {
    pub domain: String,
    pub selector: String,
    pub private_key: String,
    pub bits: u32,
    pub require_fips: bool,
}

#[derive(Debug)]
pub struct GeneratedKey {
    pub domain: String,
    pub selector: String,
    pub private_key: String,
    pub bits: u32,
    pub dns_record: String,
}

// The DNS record.

/// The most characters in one string of the record.
pub const CHUNK: usize = 180;

/// A text cut into pieces of `CHUNK` characters, the last of which may be shorter.
pub open spec fn chunks(text: Seq<char>) -> Seq<Seq<char>>
    decreases text.len(),
{
    if text.len() == 0 {
        Seq::empty()
    } else if text.len() <= CHUNK {
        seq![text]
    } else {
        seq![text.take(CHUNK as int)] + chunks(text.skip(CHUNK as int))
    }
}

pub open spec fn quoted(text: Seq<char>) -> Seq<char> {
    seq!['"'] + text + seq!['"']
}

/// Quoted strings with spaces between them.
pub open spec fn quoted_strings(parts: Seq<Seq<char>>) -> Seq<char> {
    join(Seq::new(parts.len(), |i: int| quoted(parts[i])), " "@)
}

/// The value of the record.
pub open spec fn record_value(public_der: Seq<u8>) -> Seq<char> {
    "v=DKIM1; k=rsa; p="@ + base64_text(public_der)
}

/// The record as a line of a zone file.
pub open spec fn record_text(
    domain: Seq<char>,
    selector: Seq<char>,
    public_der: Seq<u8>,
) -> Seq<char> {
    selector + "._domainkey."@ + domain + ". IN TXT "@ + quoted_strings(
        chunks(record_value(public_der)),
    )
}

fn quote(text: &[char]) -> (r: String)
    ensures
        r@ == quoted(text@),
{
    let mut r = "\"".to_owned();
    r.append(string_of(text).as_str());
    r.append("\"");
    proof {
        reveal_strlit("\"");
    }
    assert(r@ =~= quoted(text@));
    r
}

/// The DNS record that publishes a key.
pub fn dns_record(domain: &str, selector: &str, public_der: &[u8]) -> (r: String)
    ensures
        r@ == record_text(domain@, selector@, public_der@),
{
    let value = concat2("v=DKIM1; k=rsa; p=", base64_of(public_der).as_str());
    let chars = chars_of(value.as_str());
    let text = chars.as_slice();
    let len: usize = text.len();
    let mut strings = String::new();
    let mut done: usize = 0;
    let ghost mut parts: Seq<Seq<char>> = Seq::empty();
    let ghost mut quotes: Seq<Seq<char>> = Seq::empty();
    assert(text@.skip(0) =~= text@);
    assert(parts + chunks(text@) =~= chunks(text@));
    while done < len
        invariant
            len == text@.len(),
            done <= len,
            parts + chunks(text@.skip(done as int)) == chunks(text@),
            quotes == Seq::new(parts.len(), |i: int| quoted(parts[i])),
            parts.len() == 0 <==> done == 0,
            strings@ == join(quotes, " "@),
        decreases len - done,
    {
        let end: usize = if len - done <= CHUNK {
            len
        } else {
            done + CHUNK
        };
        let part = slice_subrange(text, done, end);
        let string = quote(part);
        proof {
            let rest = text@.skip(done as int);
            let after = text@.skip(end as int);
            if len - done <= CHUNK {
                assert(part@ =~= rest);
                assert(chunks(rest) =~= seq![part@] + chunks(after));
            } else {
                assert(part@ =~= rest.take(CHUNK as int));
                assert(after =~= rest.skip(CHUNK as int));
            }
            assert(parts.push(part@) + chunks(after) =~= parts + chunks(rest));
            let more = quotes.push(string@);
            assert(more.drop_last() =~= quotes);
            parts = parts.push(part@);
            assert(more =~= Seq::new(parts.len(), |i: int| quoted(parts[i])));
        }
        if done != 0 {
            strings.append(" ");
        }
        strings.append(string.as_str());
        proof {
            quotes = quotes.push(string@);
            assert(strings@ =~= join(quotes, " "@));
        }
        done = end;
    }
    assert(text@.skip(len as int) =~= Seq::empty());
    assert(parts =~= chunks(text@));
    let mut record = concat2(selector, "._domainkey.");
    record.append(domain);
    record.append(". IN TXT ");
    record.append(strings.as_str());
    record
}

/// Strings one after another.
pub open spec fn joined(parts: Seq<Seq<char>>) -> Seq<char>
    decreases parts.len(),
{
    if parts.len() == 0 {
        Seq::empty()
    } else {
        parts[0] + joined(parts.skip(1))
    }
}

proof fn lemma_chunks(text: Seq<char>)
    ensures
        joined(chunks(text)) == text,
        forall|i: int|
            0 <= i < chunks(text).len() ==> 0 < (#[trigger] chunks(text)[i]).len() <= CHUNK && forall|
                c: char,
            |
                chunks(text)[i].contains(c) ==> text.contains(c),
    decreases text.len(),
{
    let parts = chunks(text);
    if 0 < text.len() <= CHUNK {
        assert(parts.skip(1) =~= Seq::empty());
        assert(joined(parts.skip(1)) == Seq::<char>::empty());
        assert(text + Seq::<char>::empty() =~= text);
    } else if text.len() > CHUNK {
        let first = text.take(CHUNK as int);
        let rest = text.skip(CHUNK as int);
        lemma_chunks(rest);
        assert(parts.skip(1) =~= chunks(rest));
        assert(first + rest =~= text);
        assert forall|i: int| 0 <= i < parts.len() implies 0 < (#[trigger] parts[i]).len() <= CHUNK
            && forall|c: char| parts[i].contains(c) ==> text.contains(c) by {
            if i > 0 {
                assert(parts[i] == chunks(rest)[i - 1]);
            }
            assert forall|c: char| parts[i].contains(c) implies text.contains(c) by {
                if i == 0 {
                    let k = choose|k: int| 0 <= k < first.len() && first[k] == c;
                    assert(text[k] == c);
                } else {
                    assert(rest.contains(c));
                    let k = choose|k: int| 0 <= k < rest.len() && rest[k] == c;
                    assert(text[k + CHUNK] == c);
                }
            }
        }
    }
}

/// The strings of the record, put together, are its value. Each is short enough for DNS, and
/// none holds a quote that would end it early.
pub proof fn law_record_strings_make_the_value(public_der: Seq<u8>)
    ensures
        joined(chunks(record_value(public_der))) == record_value(public_der),
        forall|i: int|
            0 <= i < chunks(record_value(public_der)).len() ==> 0 < (#[trigger] chunks(
                record_value(public_der),
            )[i]).len() <= 255 && !chunks(record_value(public_der))[i].contains('"'),
{
    let value = record_value(public_der);
    lemma_chunks(value);
    lemma_base64_is_plain(public_der);
    assert(!value.contains('"')) by {
        reveal_strlit("v=DKIM1; k=rsa; p=");
        if value.contains('"') {
            let k = choose|k: int| 0 <= k < value.len() && value[k] == '"';
            if k >= 18 {
                assert(base64_text(public_der)[k - 18] == '"');
            }
        }
    }
}

// The key.

/// Why OpenSSL may fail to make a key.
pub open spec fn is_rsa_failure(error: Seq<char>) -> bool {
    ||| starts_with(error, "system OpenSSL cannot initialize RSA key generation: "@)
    ||| starts_with(error, "system OpenSSL cannot configure RSA key generation: "@)
    ||| starts_with(error, "system OpenSSL RSA key generation failed: "@)
}

/// Makes a new RSA key.
pub fn generate_rsa(bits: u32) -> (r: Result<PKey<Private>, String>)
    requires
        bits <= i32::MAX,
    ensures
        match r {
            Ok(key) => bits % 8 == 0 ==> key_bits(key_contents(key)) == bits,
            Err(error) => is_rsa_failure(error@),
        },
{
    let mut context = match rsa_context() {
        Ok(context) => context,
        Err(error) => return Err(
            with_cause("system OpenSSL cannot initialize RSA key generation: ", &error),
        ),
    };
    match start_keygen(&mut context) {
        Ok(()) => {},
        Err(error) => return Err(
            with_cause("system OpenSSL cannot configure RSA key generation: ", &error),
        ),
    }
    match set_keygen_bits(&mut context, bits) {
        Ok(()) => {},
        Err(error) => return Err(
            with_cause("system OpenSSL cannot configure RSA key generation: ", &error),
        ),
    }
    match make_key(&mut context) {
        Ok(key) => Ok(key),
        Err(error) => Err(with_cause("system OpenSSL RSA key generation failed: ", &error)),
    }
}

pub open spec fn is_key_length(bits: u32) -> bool {
    bits == 2048 || bits == 3072 || bits == 4096
}

/// Why no key is made for these options, if none is.
pub open spec fn options_error(
    options: GenerateOptions,
    kernel: KernelFips,
    openssl_enabled: bool,
) -> Option<Seq<char>> {
    let domain = dns_name_of("domain"@, options.domain@);
    let selector = dns_name_of("selector"@, options.selector@);
    if options.require_fips && fips_error(kernel, openssl_enabled) is Some {
        fips_error(kernel, openssl_enabled)
    } else if let Err(error) = domain {
        Some(error)
    } else if let Err(error) = selector {
        Some(error)
    } else if !is_key_length(options.bits) {
        Some("RSA bits must be 2048, 3072, or 4096"@)
    } else if !(options.private_key@.len() > 0 && options.private_key@[0] == '/') {
        Some("private key output path must be absolute"@)
    } else {
        None
    }
}

/// Why OpenSSL may fail to make or to write down a key of a good length.
pub open spec fn is_generate_failure(error: Seq<char>) -> bool {
    ||| is_rsa_failure(error)
    ||| error == "private key must be RSA"@
    ||| starts_with(error, "RSA-SHA256 is unavailable from system OpenSSL: "@)
    ||| starts_with(error, "RSA-SHA256 startup self-test failed: "@)
    ||| starts_with(error, "cannot encode RSA public key: "@)
    ||| starts_with(error, "cannot encode PKCS#8 private key: "@)
}

/// Whether a key may have been made for these options, with this PEM text.
pub open spec fn is_generated(
    options: GenerateOptions,
    contents: Seq<u8>,
    generated: GeneratedKey,
    pem: Seq<u8>,
) -> bool {
    &&& dns_name_of("domain"@, options.domain@) == Ok::<Seq<char>, Seq<char>>(generated.domain@)
    &&& dns_name_of("selector"@, options.selector@) == Ok::<Seq<char>, Seq<char>>(
        generated.selector@,
    )
    &&& generated.private_key == options.private_key
    &&& generated.bits == options.bits
    &&& key_bits(contents) == options.bits
    &&& is_usable_key(contents)
    &&& generated.dns_record@ == record_text(
        generated.domain@,
        generated.selector@,
        public_key_der(contents),
    )
    &&& pem == pkcs8_pem(contents)
    &&& pem_key(pem) == contents
    &&& !is_encrypted(pem)
}

/// Whether these may have been made for these options, from some key.
pub open spec fn may_generate(
    options: GenerateOptions,
    generated: GeneratedKey,
    pem: Seq<u8>,
) -> bool {
    exists|contents: Seq<u8>| #[trigger] is_generated(options, contents, generated, pem)
}

/// Makes a key for a domain and a selector. Beside the key's data comes its PEM text, which the
/// caller is to store under the path that was asked for.
pub fn generate(options: GenerateOptions, kernel: &KernelFips, openssl_enabled: bool) -> (r: Result<
    (GeneratedKey, Vec<u8>),
    String,
>)
    ensures
        match r {
            Ok((generated, pem)) => options_error(options, *kernel, openssl_enabled) is None
                && may_generate(options, generated, pem@),
            Err(error) => match options_error(options, *kernel, openssl_enabled) {
                Some(why) => error@ == why,
                None => is_generate_failure(error@),
            },
        },
{
    match check_fips_environment(options.require_fips, kernel, openssl_enabled) {
        Ok(()) => {},
        Err(error) => return Err(error),
    }
    let domain = match validate_dns_name("domain", options.domain.as_str()) {
        Ok(domain) => domain,
        Err(error) => return Err(error),
    };
    let selector = match validate_dns_name("selector", options.selector.as_str()) {
        Ok(selector) => selector,
        Err(error) => return Err(error),
    };
    if options.bits != 2048 && options.bits != 3072 && options.bits != 4096 {
        return Err("RSA bits must be 2048, 3072, or 4096".to_owned());
    }
    if !is_absolute(options.private_key.as_str()) {
        return Err("private key output path must be absolute".to_owned());
    }
    let key = match generate_rsa(options.bits) {
        Ok(key) => key,
        Err(error) => return Err(error),
    };
    match validate_key(&key) {
        Ok(()) => {},
        Err(error) => return Err(error),
    }
    let public = match public_der(&key) {
        Ok(public) => public,
        Err(error) => return Err(with_cause("cannot encode RSA public key: ", &error)),
    };
    let pem = match private_pem(&key) {
        Ok(pem) => pem,
        Err(error) => return Err(with_cause("cannot encode PKCS#8 private key: ", &error)),
    };
    let record = dns_record(domain.as_str(), selector.as_str(), public.as_slice());
    let generated = GeneratedKey {
        dns_record: record,
        domain,
        selector,
        private_key: options.private_key,
        bits: options.bits,
    };
    assert(is_generated(options, key_contents(key), generated, pem@));
    Ok((generated, pem))
}

impl GeneratedKey {
    pub open spec fn report_text(self) -> Seq<char> {
        "generated "@ + decimal(self.bits as nat) + "-bit RSA private key: "@ + self.private_key@
            + "\nDNS record:\n"@ + self.dns_record@ + "\n"@
    }

    /// What is told to the operator.
    pub fn report(&self) -> (r: String)
        ensures
            r@ == self.report_text(),
    {
        let mut r = concat2("generated ", decimal_of(self.bits as u64).as_str());
        r.append("-bit RSA private key: ");
        r.append(self.private_key.as_str());
        r.append("\nDNS record:\n");
        r.append(self.dns_record.as_str());
        r.append("\n");
        r
    }
}

/// A key that was made has the length that was asked for, is what its PEM text, which is not
/// encrypted, is read as, and is one that can be used.
pub proof fn law_generated_keys_can_be_loaded(
    options: GenerateOptions,
    kernel: KernelFips,
    openssl_enabled: bool,
    contents: Seq<u8>,
    generated: GeneratedKey,
    pem: Seq<u8>,
)
    requires
        options_error(options, kernel, openssl_enabled) is None,
        is_generated(options, contents, generated, pem),
    ensures
        pem_key(pem) == contents,
        !is_encrypted(pem),
        key_bits(pem_key(pem)) == options.bits,
        is_usable_key(pem_key(pem)),
{
}

// Reading the record.

/// The strings that a text holds: each stands between two quotes, and spaces part them.
pub open spec fn strings_of(s: Seq<char>) -> Seq<Seq<char>>
    decreases s.len(),
{
    proof {
        lemma_find(s.skip(1), '"');
    }
    if s.len() == 0 {
        Seq::empty()
    } else if s[0] == '"' {
        match find(s.skip(1), '"') {
            Some(i) => seq![s.skip(1).take(i)] + strings_of(s.skip(1).skip(i + 1)),
            None => Seq::empty(),
        }
    } else if s[0] == ' ' {
        strings_of(s.skip(1))
    } else {
        Seq::empty()
    }
}

proof fn lemma_first_string(part: Seq<char>, tail: Seq<char>)
    requires
        !part.contains('"'),
    ensures
        strings_of(quoted(part) + tail) == seq![part] + strings_of(tail),
{
    let s = quoted(part) + tail;
    let after = s.skip(1);
    assert forall|j: int| 0 <= j < part.len() implies after[j] != '"' by {
        assert(after[j] == part[j]);
        assert(part.contains(part[j]));
    }
    assert(after[part.len() as int] == '"');
    lemma_find_is(after, '"', part.len() as int);
    assert(after.take(part.len() as int) =~= part);
    assert(after.skip(part.len() as int + 1) =~= tail);
}

proof fn lemma_strings(parts: Seq<Seq<char>>)
    requires
        forall|i: int| 0 <= i < parts.len() ==> !(#[trigger] parts[i]).contains('"'),
    ensures
        strings_of(quoted_strings(parts)) == parts,
    decreases parts.len(),
{
    let quotes = Seq::new(parts.len(), |i: int| quoted(parts[i]));
    reveal_strlit(" ");
    if parts.len() == 0 {
        assert(quoted_strings(parts).len() == 0);
        assert(strings_of(quoted_strings(parts)) =~= parts);
    } else {
        let rest = parts.skip(1);
        assert forall|i: int| 0 <= i < rest.len() implies !(#[trigger] rest[i]).contains('"') by {
            assert(rest[i] == parts[i + 1]);
        }
        lemma_strings(rest);
        let nothing = Seq::<char>::empty();
        if parts.len() == 1 {
            lemma_first_string(parts[0], nothing);
            assert(quoted(parts[0]) + nothing =~= quoted(parts[0]));
            assert(quoted_strings(parts) == quoted(parts[0]));
            assert(strings_of(nothing) == Seq::<Seq<char>>::empty());
            assert(seq![parts[0]] + Seq::<Seq<char>>::empty() =~= parts);
        } else {
            let others = Seq::new(rest.len(), |i: int| quoted(rest[i]));
            assert(quotes =~= seq![quoted(parts[0])] + others);
            lemma_join_front(quoted(parts[0]), others, " "@);
            let tail = " "@ + quoted_strings(rest);
            assert(quoted_strings(parts) =~= quoted(parts[0]) + tail);
            lemma_first_string(parts[0], tail);
            assert(tail[0] == ' ');
            assert(tail.skip(1) =~= quoted_strings(rest));
            assert(strings_of(tail) == strings_of(tail.skip(1)));
            assert(seq![parts[0]] + rest =~= parts);
        }
    }
}

proof fn lemma_joined_is_flat(parts: Seq<Seq<char>>)
    ensures
        joined(parts) == parts.flatten(),
    decreases parts.len(),
{
    if parts.len() > 0 {
        lemma_joined_is_flat(parts.skip(1));
        assert(parts.skip(1) =~= parts.drop_first());
        assert(joined(parts) =~= parts.flatten());
    }
}

/// The record names the selector and the domain. Read as a zone file is read, the strings after
/// `IN TXT` are of at most 255 characters each, and put together they are the tags with the whole
/// base64 text of the public key, whatever its length.
pub proof fn law_records_publish_the_whole_key(
    domain: Seq<char>,
    selector: Seq<char>,
    public_der: Seq<u8>,
)
    ensures
        ({
            let record = record_text(domain, selector, public_der);
            let start = selector + "._domainkey."@ + domain + ". IN TXT "@;
            let strings = strings_of(record.skip(start.len() as int));
            &&& record.take(start.len() as int) == start
            &&& strings.flatten() == "v=DKIM1; k=rsa; p="@ + base64_text(public_der)
            &&& forall|i: int| 0 <= i < strings.len() ==> 0 < (#[trigger] strings[i]).len() <= 255
        }),
{
    let record = record_text(domain, selector, public_der);
    let start = selector + "._domainkey."@ + domain + ". IN TXT "@;
    let parts = chunks(record_value(public_der));
    law_record_strings_make_the_value(public_der);
    assert(record.take(start.len() as int) =~= start);
    assert(record.skip(start.len() as int) =~= quoted_strings(parts));
    lemma_strings(parts);
    lemma_joined_is_flat(parts);
}

/// Keys of 2048, 3072 and 4096 bits can be made, and no others.
pub proof fn law_three_lengths_can_be_made(bits: u32)
    ensures
        is_key_length(bits) <==> (bits == 0x800 || bits == 0xc00 || bits == 0x1000),
{
}

/// Good options are not refused: names that are good, one of the lengths, a path from the root,
/// and FIPS mode where it is wanted.
pub proof fn law_good_options_are_taken(
    options: GenerateOptions,
    kernel: KernelFips,
    openssl_enabled: bool,
)
    ensures
        options_error(options, kernel, openssl_enabled) is None <==> {
            &&& !options.require_fips || fips_error(kernel, openssl_enabled) is None
            &&& is_dns_name(dns_form(options.domain@))
            &&& is_dns_name(dns_form(options.selector@))
            &&& options.bits == 2048 || options.bits == 3072 || options.bits == 4096
            &&& options.private_key@.len() > 0 && options.private_key@.first() == '/'
        },
{
}

/// The operator is told the record last, and before it the length of the key and its path.
pub proof fn law_operators_are_told_the_record(key: GeneratedKey)
    ensures
        ({
            let report = key.report_text();
            let first = "generated "@ + decimal(key.bits as nat) + "-bit RSA private key: "@
                + key.private_key@ + seq!['\n'];
            let last = key.dns_record@ + seq!['\n'];
            &&& report.len() >= first.len() + last.len()
            &&& report.take(first.len() as int) == first
            &&& report.skip(report.len() - last.len()) == last
        }),
{
    reveal_strlit("\nDNS record:\n");
    reveal_strlit("\n");
    let report = key.report_text();
    let first = "generated "@ + decimal(key.bits as nat) + "-bit RSA private key: "@
        + key.private_key@ + seq!['\n'];
    let last = key.dns_record@ + seq!['\n'];
    assert(report.take(first.len() as int) =~= first);
    assert(report.skip(report.len() - last.len()) =~= last);
}

} // verus!
