use dkim_lite::address::from_domain;
use dkim_lite::clock::seconds_since_epoch;
use dkim_lite::config::{IpAddress, ListenAddr, RuntimeConfig, TcpAddress};
use dkim_lite::crypto::base64_of;
use dkim_lite::dkim::{
    canonicalize_header, canonicalize_signature_header, check_from, sign, signed_value,
    signing_input, BodyCanonicalizer, Header,
};
use dkim_lite::fold::fold_signature;
use openssl::base64;
use openssl::hash::MessageDigest;
use openssl::pkey::{PKey, Private};
use openssl::rsa::Rsa;
use openssl::sign::Verifier;
use std::sync::Arc;
use std::time::{Duration, SystemTime, UNIX_EPOCH};

fn config(key: &PKey<Private>) -> RuntimeConfig {
    RuntimeConfig {
        domain: "example.com".into(),
        selector: "test".into(),
        private_key: "unused".into(),
        listen: ListenAddr::Tcp(TcpAddress {
            ip: IpAddress::V4(0x7f00_0001),
            port: 8891,
            scope: 0,
        }),
        require_fips: false,
        key: Arc::new(key.clone()),
    }
}

fn new_key() -> PKey<Private> {
    PKey::from_rsa(Rsa::generate(2048).unwrap()).unwrap()
}

fn header(name: &[u8], value: &[u8]) -> Header {
    Header::new(name, value).unwrap()
}

#[test]
fn parses_single_from_domain() {
    assert_eq!(
        from_domain(b"Alice (team) <alice@Example.COM>"),
        Some("example.com".into())
    );
    assert_eq!(from_domain(b"a@example.com, b@example.com"), None);
}

#[test]
fn generated_signature_verifies_and_oversigns_from() {
    let key = new_key();
    let config = config(&key);
    let headers = vec![
        Header::new(b"From", b"Alice <alice@example.com>").unwrap(),
        Header::new(b"Subject", b"A  test").unwrap(),
    ];
    let mut body = BodyCanonicalizer::default();
    body.update(b"hello\n");
    let value = sign(&config, &headers, body.finish()).unwrap();
    assert!(value.contains("h=from:from:subject;"));

    let b_start = value.find("b=").unwrap() + 2;
    let signature_text: String = value[b_start..]
        .bytes()
        .filter(|byte| !byte.is_ascii_whitespace())
        .map(char::from)
        .collect();
    let signature = base64::decode_block(&signature_text).unwrap();
    let mut unsigned = value[..b_start].to_owned();
    // The signer canonicalizes the semantically equivalent unfolded value.
    unsigned = String::from_utf8(canonicalize_signature_header(unsigned.as_bytes())).unwrap();

    let mut verifier = Verifier::new(MessageDigest::sha256(), &key).unwrap();
    verifier
        .update(&canonicalize_header(b"From", b"Alice <alice@example.com>"))
        .unwrap();
    verifier
        .update(&canonicalize_header(b"Subject", b"A  test"))
        .unwrap();
    verifier.update(unsigned.as_bytes()).unwrap();
    assert!(verifier.verify(&signature).unwrap());
}

#[test]
fn from_domains_of_many_forms() {
    for (value, domain) in [
        ("alice@example.com", Some("example.com")),
        ("  alice@Example.com.. ", Some("example.com")),
        ("\"A, B\" <a@b.example>", Some("b.example")),
        ("\"a\\\"b, c\" <a@b.example>", Some("b.example")),
        ("(x, y) a@b.example", Some("b.example")),
        ("\"<\" <a@b.example>", Some("b.example")),
        ("Alice <\"a@b\"@c.example>", Some("c.example")),
        ("<a@evil.test> (<b@example.com>)", Some("evil.test")),
        ("\"<b@example.com>\"@evil.test", Some("evil.test")),
        ("\"b@example.com\" <a@evil.test>", Some("evil.test")),
        ("<a@evil.test> (b@example.com)", Some("evil.test")),
        ("(<b@example.com>) a@evil.test", Some("evil.test")),
        ("<\"b@example.com\"@evil.test>", Some("evil.test")),
        ("<\"b@example.com\">", None),
        ("(a@example.com)", None),
        ("<a@b.example> , <c@d.example>", None),
        ("Alice <alice>", None),
        ("alice", None),
        ("", None),
        ("a@", None),
        ("a@b c", None),
        ("a@b_c", None),
        ("\"open <a@b.example>", None),
        ("(open <a@b.example>", None),
        ("<a@b.example", None),
        ("a@b.example>", None),
    ] {
        assert_eq!(
            from_domain(value.as_bytes()),
            domain.map(|d| d.to_owned()),
            "{value}"
        );
    }
    assert_eq!(from_domain(b"\xff@example.com"), None);
}

#[test]
fn messages_without_one_matching_from_are_refused() {
    let key = new_key();
    let config = config(&key);
    let good = header(b"From", b"a@EXAMPLE.com");
    assert!(check_from("example.com", &[good.clone()]).is_ok());
    for (headers, reason) in [
        (vec![], "message must contain exactly one From header"),
        (
            vec![good.clone(), header(b"FROM", b"b@example.com")],
            "message must contain exactly one From header",
        ),
        (
            vec![header(b"from", b"nobody")],
            "cannot extract a single From domain",
        ),
        (
            vec![header(b"From", b"<a@evil.test> (<b@example.com>)")],
            "From domain does not match configured domain",
        ),
        (
            vec![header(b"From", b"a@sub.example.com")],
            "From domain does not match configured domain",
        ),
    ] {
        assert_eq!(check_from("example.com", &headers).unwrap_err(), reason);
        assert_eq!(sign(&config, &headers, [0; 32]).unwrap_err(), reason);
        match signing_input(&config, &headers, [0; 32], 1) {
            Ok(_) => panic!("refused"),
            Err(error) => assert_eq!(error, reason),
        }
    }
}

#[test]
fn signing_input_has_exact_bytes() {
    let key = new_key();
    let config = config(&key);
    let headers = [
        header(b"To", b" first@example.net"),
        header(b"X-Other", b"not signed"),
        header(b"DKIM-Signature", b"v=1; an older one"),
        header(b"From", b"Alice\r\n <alice@example.com>"),
        header(b"TO", b"second@example.net "),
        header(b"Date", b"today"),
    ];
    let input = signing_input(&config, &headers, [0; 32], 1_700_000_000)
        .ok()
        .unwrap();
    assert_eq!(
        input.unsigned,
        "v=1; a=rsa-sha256; c=relaxed/relaxed; d=example.com; s=test; t=1700000000; \
         h=from:from:date:to; bh=AAAAAAAAAAAAAAAAAAAAAAAAAAAAAAAAAAAAAAAAAAA=; b="
    );
    assert_eq!(
        input.header_bytes,
        b"from:Alice <alice@example.com>\r\ndate:today\r\nto:second@example.net\r\n".to_vec()
    );
    assert_eq!(
        input.signature_bytes,
        format!("dkim-signature:{}", input.unsigned).into_bytes()
    );
}

#[test]
fn signature_holds_as_sent() {
    let key = new_key();
    let config = config(&key);
    let headers = [
        header(b"From", b"alice@example.com"),
        header(b"References", b"<1@x>\r\n <2@x>"),
    ];
    let value = sign(&config, &headers, [9; 32]).unwrap();
    assert!(value.contains("\r\n\t"));
    let start = value.find("b=").unwrap() + 2;
    let start = start + value[start..].find("b=").map_or(0, |more| more + 2);
    let signature = base64::decode_block(&value[start..]).unwrap();
    let mut verifier = Verifier::new(MessageDigest::sha256(), &key).unwrap();
    verifier
        .update(b"from:alice@example.com\r\nreferences:<1@x> <2@x>\r\n")
        .unwrap();
    verifier
        .update(&canonicalize_signature_header(value[..start].as_bytes()))
        .unwrap();
    assert!(verifier.verify(&signature).unwrap());
}

#[test]
fn signed_values_end_in_the_signature() {
    assert_eq!(signed_value("v=1; b=", &[0xff, 0xee]), "v=1; b=/+4=");
}

#[test]
fn folding_breaks_long_lines_at_spaces() {
    assert_eq!(fold_signature(""), "");
    assert_eq!(fold_signature("a b"), "a b");
    let word = "x".repeat(40);
    let text = format!("{word} {word} y");
    assert_eq!(fold_signature(&text), format!("{word}\r\n\t{word} y"));
    let exact = format!("{} {}", "x".repeat(35), "y".repeat(36));
    assert_eq!(fold_signature(&exact), exact);
    let over = format!("{} {}", "x".repeat(35), "y".repeat(37));
    assert_eq!(fold_signature(&over), over.replace(' ', "\r\n\t"));
    let long = "z".repeat(200);
    assert_eq!(fold_signature(&long), long);
}

#[test]
fn folded_lines_are_short() {
    let key = new_key();
    let value = sign(&config(&key), &[header(b"From", b"a@example.com")], [1; 32]).unwrap();
    let folded = fold_signature(&"ab cde f ".repeat(60));
    for line in value.split("\r\n").chain(folded.split("\r\n")) {
        assert!(line.len() <= 72 || !line.trim_start().contains(' '), "{line}");
    }
}

#[test]
fn folding_keeps_the_relaxed_value() {
    let text = "v=1; a=rsa-sha256; c=relaxed/relaxed; d=example.com; s=test; t=1; \
                h=from:from:to; bh=abc; b=def";
    let folded = fold_signature(text);
    assert_ne!(folded, text);
    assert_eq!(
        canonicalize_signature_header(folded.as_bytes()),
        canonicalize_signature_header(text.as_bytes())
    );
}

#[test]
fn base64_is_the_standard_one() {
    for (bytes, text) in [
        (b"".as_slice(), ""),
        (b"f", "Zg=="),
        (b"fo", "Zm8="),
        (b"foo", "Zm9v"),
        (b"foob", "Zm9vYg=="),
        (b"\xfb\xff\xbf", "+/+/"),
    ] {
        assert_eq!(base64_of(bytes), text);
    }
    let long = vec![0x5a; 3_145_728 + 1];
    assert_eq!(base64_of(&long), base64::encode_block(&long));
}

#[test]
fn seconds_are_counted_from_1970() {
    assert_eq!(seconds_since_epoch(&UNIX_EPOCH), Some(0));
    for (millis, seconds) in [(999, 0), (1_000, 1), (1_700_000_000_500, 1_700_000_000)] {
        let time = UNIX_EPOCH + Duration::from_millis(millis);
        assert_eq!(seconds_since_epoch(&time), Some(seconds));
    }
    assert_eq!(
        seconds_since_epoch(&(UNIX_EPOCH - Duration::from_millis(1))),
        None
    );
}

#[test]
fn signatures_tell_when_they_were_made() {
    let key = new_key();
    let before = seconds_since_epoch(&SystemTime::now()).unwrap();
    let value = sign(&config(&key), &[header(b"From", b"a@example.com")], [1; 32]).unwrap();
    let after = seconds_since_epoch(&SystemTime::now()).unwrap();
    let start = value.find("t=").unwrap() + 2;
    let end = start + value[start..].find(';').unwrap();
    let time: u64 = value[start..end].parse().unwrap();
    assert!(before <= time && time <= after);
}

#[test]
fn other_fields_and_their_order_do_not_matter() {
    let key = new_key();
    let config = config(&key);
    let from = header(b"From", b"a@example.com");
    let to = header(b"To", b"b@example.net");
    let other = header(b"DKIM-Signature", b"v=1; an older one");
    let first = signing_input(&config, &[from.clone(), to.clone()], [3; 32], 7)
        .ok()
        .unwrap();
    for headers in [
        [to.clone(), from.clone(), other.clone()],
        [other.clone(), from.clone(), to.clone()],
        [from, other, to],
    ] {
        let input = signing_input(&config, &headers, [3; 32], 7).ok().unwrap();
        assert_eq!(input.unsigned, first.unsigned);
        assert_eq!(input.header_bytes, first.header_bytes);
        assert_eq!(input.signature_bytes, first.signature_bytes);
    }
}

#[test]
fn unfolding_gives_the_value_back() {
    for value in [
        "",
        "a",
        "a  b ",
        "a\tb \t c",
        &"word ".repeat(40),
        &format!("{} x {}", "y".repeat(100), "z".repeat(80)),
    ] {
        assert_eq!(fold_signature(value).replace("\r\n\t", " "), value);
    }
}
