use dkim_lite::dkim::{canonicalize_header, canonicalize_signature_header, BodyCanonicalizer, Header};
use openssl::base64;
use openssl::sha::Sha256;

fn body(parts: &[&[u8]]) -> String {
    let mut c = BodyCanonicalizer::default();
    for part in parts {
        c.update(part);
    }
    base64::encode_block(&c.finish())
}

fn hashed(bytes: &[u8]) -> String {
    let mut sha = Sha256::new();
    sha.update(bytes);
    base64::encode_block(&sha.finish())
}

#[test]
fn relaxed_header() {
    assert_eq!(
        canonicalize_header(b"SUBJect", b"  hello\r\n\tworld  "),
        b"subject:hello world\r\n"
    );
}

#[test]
fn rfc6376_relaxed_canonicalization_examples() {
    assert_eq!(canonicalize_header(b"A", b" X\r\n Y\tZ  "), b"a:X Y Z\r\n");
    assert_eq!(body(&[b" C \r\nD \t E\r\n\r\n"]), body(&[b" C\r\nD E\r\n"]));
}

#[test]
fn body_accepts_non_utf8_bytes() {
    assert_eq!(
        body(&[&[0xff, b' ', b'\n']]),
        body(&[&[0xff, b'\r', b'\n']])
    );
}

#[test]
fn relaxed_body_is_chunk_independent() {
    let expected = body(&[b" C \r\nD \t E\r\n\r\n".as_slice()]);
    assert_eq!(
        expected,
        body(&[b" C \r", b"\nD ", b"\t E\r\n", b"\r", b"\n"])
    );
}

#[test]
fn empty_body_is_one_crlf() {
    let mut sha = Sha256::new();
    sha.update(b"\r\n");
    let expected = base64::encode_block(&sha.finish());
    assert_eq!(body(&[]), expected);
    assert_eq!(body(&[b"\r\n\r\n"]), expected);
}

#[test]
fn keeps_leading_empty_lines_before_content() {
    assert_eq!(body(&[b"\r\nA"]), body(&[b"\r", b"\n", b"A"]));
    assert_ne!(body(&[b"\r\nA"]), body(&[b"A"]));
}

#[test]
fn body_hash_is_that_of_the_relaxed_form() {
    assert_eq!(
        body(&[b" C \r\nD \t E\r\n\r\n\r\n"]),
        hashed(b" C\r\nD E\r\n")
    );
    assert_eq!(body(&[b"\r\n \r\nA"]), hashed(b"\r\n\r\nA\r\n"));
    assert_eq!(body(&[b"a\rb\nc"]), hashed(b"a\r\nb\r\nc\r\n"));
    assert_eq!(body(&[b"a\r\r\nb"]), hashed(b"a\r\n\r\nb\r\n"));
    assert_eq!(body(&[b"  \t "]), hashed(b"\r\n"));
    assert_eq!(body(&[b"x\r"]), hashed(b"x\r\n"));
}

#[test]
fn body_hash_has_a_known_value() {
    // The hash of "hello\r\n".
    assert_eq!(
        body(&[b"hello\n"]),
        "zS7KNTV0HyeorkDDGwxB1AV6enuRKzO5rthkhdHIRnY="
    );
}

#[test]
fn final_line_ends_do_not_matter() {
    for text in [b"a".as_slice(), b"a\r", b"a \r\n", b"", b"\n\n"] {
        assert_eq!(body(&[text]), body(&[text, b"\r\n"]));
    }
}

#[test]
fn relaxing_a_body_again_changes_nothing() {
    let relaxed = b"\r\n one two\r\n\r\nthree\r\n";
    assert_eq!(body(&[b"\n\tone \t two\n \nthree \n\n"]), hashed(relaxed));
    assert_eq!(body(&[relaxed]), hashed(relaxed));
}

#[test]
fn white_space_after_colons_within_a_value_is_kept() {
    assert_eq!(
        canonicalize_header(b"Subject", b" Re: \t hello"),
        b"subject:Re: hello\r\n"
    );
    assert_eq!(canonicalize_header(b"X", b""), b"x:\r\n");
    assert_eq!(canonicalize_header(b"X", b" \r\n\t"), b"x:\r\n");
}

#[test]
fn relaxing_a_value_again_changes_nothing() {
    let once = canonicalize_header(b"a", b" x \t y\r\n z ");
    assert_eq!(once, b"a:x y z\r\n");
    assert_eq!(canonicalize_header(b"a", b"x y z"), once);
}

#[test]
fn signature_header_has_no_line_end() {
    assert_eq!(
        canonicalize_signature_header(b"v=1;\r\n\tb="),
        b"dkim-signature:v=1; b="
    );
}

#[test]
fn headers_are_checked() {
    let header = Header::new(b"X-Test-1", b"\xff value").unwrap();
    assert_eq!(header.name, b"X-Test-1");
    assert_eq!(header.value, b"\xff value");
    assert!(Header::new(&[b'a'; 998], b"").is_ok());
    for (name, value) in [
        (b"".as_slice(), b"x".as_slice()),
        (&[b'a'; 999], b"x"),
        (b"A:", b"x"),
        (b"A B", b"x"),
        (b"A", b"x\0y"),
    ] {
        assert_eq!(
            Header::new(name, value).unwrap_err(),
            "invalid header supplied by MTA"
        );
    }
    assert!(header.is("x-test-1"));
    assert!(!header.is("x-test"));
}

#[test]
fn any_bytes_can_be_canonicalized() {
    let mut state: u32 = 1;
    for length in 0..300usize {
        let mut data = Vec::new();
        for _ in 0..length {
            state = state.wrapping_mul(1_664_525).wrapping_add(1_013_904_223);
            data.push(b"\r\n \tab:"[(state >> 24) as usize % 7]);
        }
        let split = data.len().min(128);
        let _ = Header::new(&data[..split], &data[split..]);
        let header = canonicalize_header(&data[..split], &data[split..]);
        assert!(header.ends_with(b"\r\n"));
        let mut whole = BodyCanonicalizer::default();
        whole.update(&data);
        let mut parts = BodyCanonicalizer::default();
        for chunk in data.chunks(17) {
            parts.update(chunk);
        }
        assert_eq!(whole.finish(), parts.finish());
    }
}
