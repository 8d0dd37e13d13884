use dkim_lite::config::{
    check_fips_environment, check_key_size, parse_listen, reload, validate_dns_name, validate_key,
    IpAddress, KernelFips, ListenAddr, RuntimeConfig, TcpAddress,
};
use dkim_lite::service::reloaded;
use dkim_lite::settings::{tcp_listen_text, Settings};
use openssl::pkey::PKey;
use openssl::rsa::Rsa;
use openssl::symm::Cipher;
use std::sync::Arc;

fn tcp(ip: IpAddress) -> Option<TcpAddress> {
    Some(TcpAddress {
        ip,
        port: 8891,
        scope: 0,
    })
}

fn local() -> Option<TcpAddress> {
    tcp(IpAddress::V4(0x7f00_0001))
}

fn key_pem(bits: u32) -> Vec<u8> {
    Rsa::generate(bits).unwrap().private_key_to_pem().unwrap()
}

const BASE: &str =
    "domain=example.com\nselector=test\nprivate_key=/etc/key.pem\nlisten=tcp:127.0.0.1:8891\n";

fn settings(input: &str) -> Result<Settings, String> {
    Settings::parse(input, local())
}

fn refused(input: &str) -> String {
    match settings(input) {
        Ok(_) => panic!("accepted: {input}"),
        Err(error) => error,
    }
}

#[test]
fn rejects_non_loopback_tcp() {
    assert!(parse_listen("tcp:0.0.0.0:8891", tcp(IpAddress::V4(0))).is_err());
    assert!(parse_listen("tcp:127.0.0.1:8891", tcp(IpAddress::V4(0x7f00_0001))).is_ok());
    assert!(parse_listen("tcp:[::1]:8891", tcp(IpAddress::V6(1))).is_ok());
}

#[test]
fn validates_names() {
    assert_eq!(
        validate_dns_name("domain", "Example.COM.").unwrap(),
        "example.com"
    );
    assert!(validate_dns_name("domain", "-bad.example").is_err());
}

#[test]
fn fips_can_be_explicitly_disabled() {
    let kernel = KernelFips::Unreadable("no such file".to_owned());
    assert!(check_fips_environment(false, &kernel, false).is_ok());
}

#[test]
fn require_fips_defaults_true_and_parses_strict_boolean() {
    let key = key_pem(2048);
    let base = BASE;
    let load = |input: &str| {
        settings(input).and_then(|settings| RuntimeConfig::load(settings, &key))
    };
    assert!(load(base).unwrap_or_else(|e| panic!("{e}")).require_fips);
    assert!(
        !load(&format!("{base}require_fips=false\n"))
            .unwrap_or_else(|e| panic!("{e}"))
            .require_fips
    );
    assert!(load(&format!("{base}require_fips=yes\n")).is_err());
}

#[test]
fn names_have_limits() {
    let label = "a".repeat(63);
    assert!(validate_dns_name("selector", &label).is_ok());
    let long = format!("{label}.{label}.{label}.{}", "a".repeat(61));
    assert_eq!(long.len(), 253);
    assert_eq!(validate_dns_name("domain", &long).unwrap(), long);
    assert_eq!(validate_dns_name("domain", "a1.B-2...").unwrap(), "a1.b-2");
    for bad in [
        "",
        ".",
        "a..b",
        ".a",
        "bad-.example",
        "a_b",
        "a b",
        "\u{e9}.example",
        &"a".repeat(64),
        &format!("{long}a"),
    ] {
        let error = validate_dns_name("selector", bad).unwrap_err();
        assert!(error.starts_with("invalid selector: "), "{error}");
    }
    assert_eq!(
        validate_dns_name("domain", "Bad_Name.").unwrap_err(),
        "invalid domain: bad_name"
    );
}

#[test]
fn listeners_are_local() {
    match parse_listen("unix:/run/dkim.sock", None).unwrap() {
        ListenAddr::Unix(path) => assert_eq!(path, "/run/dkim.sock"),
        ListenAddr::Tcp(_) => panic!("not a path"),
    }
    assert_eq!(
        parse_listen("tcp:[::1]:8891", tcp(IpAddress::V6(1))).unwrap(),
        ListenAddr::Tcp(TcpAddress {
            ip: IpAddress::V6(1),
            port: 8891,
            scope: 0
        })
    );
    for (value, address, error) in [
        ("unix:run/x", None, "unix listen path must be absolute"),
        ("unix:", None, "unix listen path must be absolute"),
        ("unix:/a\0b", None, "unix listen path must be absolute"),
        ("tcp:here", None, "invalid TCP listen address: here"),
        (
            "tcp:[::2]:1",
            tcp(IpAddress::V6(2)),
            "TCP listener must use a loopback address",
        ),
        (
            "tcp:128.0.0.1:1",
            tcp(IpAddress::V4(0x8000_0001)),
            "TCP listener must use a loopback address",
        ),
        ("/run/x", None, "listen must start with unix: or tcp:"),
    ] {
        assert_eq!(parse_listen(value, address).unwrap_err(), error);
    }
    assert!(parse_listen("tcp:127.255.255.255:1", tcp(IpAddress::V4(0x7fff_ffff))).is_ok());
}

#[test]
fn settings_are_read() {
    let read = settings(
        "# a comment\r\n\n  domain = Example.COM. \nselector=Mail\nprivate_key=/k=1.pem\r\n\
         \tlisten=unix:/run/x\nrequire_fips=true",
    )
    .unwrap_or_else(|e| panic!("{e}"));
    assert_eq!(read.domain, "example.com");
    assert_eq!(read.selector, "mail");
    assert_eq!(read.private_key, "/k=1.pem");
    assert_eq!(read.listen, ListenAddr::Unix("/run/x".to_owned()));
    assert!(read.require_fips);
}

#[test]
fn wrong_settings_are_refused() {
    for (input, error) in [
        ("domain".to_owned(), "line 1: expected name=value"),
        ("\n#x\ndomain=".to_owned(), "line 3: empty value for domain"),
        (
            "domain=a\ndomain=b".to_owned(),
            "line 2: duplicate setting domain",
        ),
        ("colour=red".to_owned(), "line 1: unknown setting colour"),
        ("domain=_".to_owned(), "invalid domain: _"),
        ("selector=_".to_owned(), "invalid selector: _"),
        (
            "listen=x".to_owned(),
            "listen must start with unix: or tcp:",
        ),
        (
            "require_fips=yes".to_owned(),
            "line 1: require_fips must be true or false",
        ),
        ("".to_owned(), "missing domain"),
        ("domain=a".to_owned(), "missing selector"),
        ("domain=a\nselector=b".to_owned(), "missing private_key"),
        (
            "domain=a\nselector=b\nprivate_key=/k".to_owned(),
            "missing listen",
        ),
        (
            BASE.replace("/etc", "etc"),
            "private_key must be an absolute path",
        ),
    ] {
        assert_eq!(refused(&input), error);
    }
}

#[test]
fn blank_lines_are_ignored() {
    let spaced = BASE.replace('\n', "\n \n# note\n");
    let a = settings(BASE).unwrap_or_else(|e| panic!("{e}"));
    let b = settings(&spaced).unwrap_or_else(|e| panic!("{e}"));
    assert_eq!(a.domain, b.domain);
    assert_eq!(a.selector, b.selector);
    assert_eq!(a.private_key, b.private_key);
    assert_eq!(a.listen, b.listen);
    assert_eq!(a.require_fips, b.require_fips);
}

#[test]
fn tcp_addresses_are_found() {
    assert_eq!(tcp_listen_text(BASE), Some("127.0.0.1:8891".to_owned()));
    assert_eq!(
        tcp_listen_text(" listen = tcp: x \nlisten=tcp:y"),
        Some(" x".to_owned())
    );
    assert_eq!(tcp_listen_text("listen=unix:/x\nlisten=tcp:y"), None);
    assert_eq!(tcp_listen_text("#listen=tcp:y"), None);
}

#[test]
fn keys_are_checked_when_loaded() {
    let load = |bytes: &[u8]| {
        let settings = settings(BASE).unwrap_or_else(|e| panic!("{e}"));
        RuntimeConfig::load(settings, bytes)
    };
    let pem = key_pem(2048);
    let config = load(&pem).unwrap_or_else(|e| panic!("{e}"));
    assert_eq!(config.domain, "example.com");
    assert_eq!(config.key.bits(), 2048);
    let expected = PKey::private_key_from_pem(&pem).unwrap();
    assert!(config.key.public_eq(&expected));
    match load(b"no key") {
        Ok(_) => panic!("accepted"),
        Err(error) => {
            assert!(error.starts_with("cannot parse unencrypted PEM private key: "));
            assert!(error.len() > "cannot parse unencrypted PEM private key: ".len());
        }
    }
    match load(&key_pem(1024)) {
        Ok(_) => panic!("accepted"),
        Err(error) => assert_eq!(error, "RSA key is 1024 bits; at least 2048 required"),
    }
    let copy = config.clone();
    assert_eq!(copy.selector, config.selector);
    assert!(copy.key.public_eq(&config.key));
}

#[test]
fn only_rsa_keys_are_valid() {
    assert!(validate_key(&PKey::from_rsa(Rsa::generate(2048).unwrap()).unwrap()).is_ok());
    assert_eq!(
        validate_key(&PKey::generate_ed25519().unwrap()).unwrap_err(),
        "private key must be RSA"
    );
}

#[test]
fn key_sizes_have_limits() {
    assert!(check_key_size(2048).is_ok());
    assert!(check_key_size(3072).is_ok());
    assert!(check_key_size(4096).is_ok());
    assert_eq!(
        check_key_size(2047).unwrap_err(),
        "RSA key is 2047 bits; at least 2048 required"
    );
    assert_eq!(
        check_key_size(4097).unwrap_err(),
        "RSA key is 4097 bits; at most 4096 supported"
    );
    assert_eq!(
        check_key_size(u32::MAX).unwrap_err(),
        "RSA key is 4294967295 bits; at most 4096 supported"
    );
    assert_eq!(
        validate_key(&PKey::from_rsa(Rsa::generate(2046).unwrap()).unwrap()).unwrap_err(),
        "RSA key is 2046 bits; at least 2048 required"
    );
}

#[test]
fn encrypted_keys_are_refused() {
    let rsa = Rsa::generate(2048).unwrap();
    let key = PKey::from_rsa(rsa.clone()).unwrap();
    let cipher = Cipher::aes_128_cbc();
    let plain = key.private_key_to_pem_pkcs8().unwrap();
    let mark = b"\xef\xbb\xbf".to_vec();
    let long = [vec![b'x'; 5_000], b"\n".to_vec()].concat();
    for encrypted in [
        rsa.private_key_to_pem_passphrase(cipher, b"secret").unwrap(),
        key.private_key_to_pem_pkcs8_passphrase(cipher, b"secret")
            .unwrap(),
        key.private_key_to_pem_pkcs8_passphrase(cipher, b"")
            .unwrap(),
    ] {
        for pem in [
            encrypted.clone(),
            [b"a comment\n".to_vec(), encrypted.clone()].concat(),
            [mark.clone(), encrypted.clone()].concat(),
            [long.clone(), encrypted.clone()].concat(),
            [encrypted.clone(), plain.clone()].concat(),
        ] {
            match RuntimeConfig::load(settings(BASE).ok().unwrap(), &pem) {
                Ok(_) => panic!("accepted"),
                Err(error) => assert_eq!(
                    error,
                    "cannot parse unencrypted PEM private key: the key is encrypted"
                ),
            }
        }
        let first = [plain.clone(), encrypted.clone()].concat();
        assert!(RuntimeConfig::load(settings(BASE).ok().unwrap(), &first).is_ok());
    }
    for pem in [
        rsa.private_key_to_pem().unwrap(),
        plain.clone(),
        [b"Proc-Type: 4,ENCRYPTED\n".to_vec(), plain.clone()].concat(),
        [mark, plain.clone()].concat(),
    ] {
        let config = RuntimeConfig::load(settings(BASE).ok().unwrap(), &pem);
        assert!(config.ok().unwrap().key.public_eq(&key));
    }
}

#[test]
fn fips_mode_is_needed_in_kernel_and_openssl() {
    let status = |text: &str| KernelFips::Status(text.to_owned());
    assert!(check_fips_environment(true, &status("1\n"), true).is_ok());
    for (kernel, openssl, error) in [
        (
            status("1\n"),
            false,
            "kernel FIPS mode is enabled but system OpenSSL is not in FIPS mode",
        ),
        (
            status("0\n"),
            true,
            "system FIPS mode is disabled; dkim-lite production builds require FIPS",
        ),
        (
            status("2\n"),
            true,
            "unexpected FIPS status in /proc/sys/crypto/fips_enabled: \"2\\n\"",
        ),
        (
            KernelFips::Unreadable("no such file".to_owned()),
            true,
            "cannot inspect /proc/sys/crypto/fips_enabled: no such file",
        ),
    ] {
        assert_eq!(
            check_fips_environment(true, &kernel, openssl).unwrap_err(),
            error
        );
    }
}

#[test]
fn reloads_keep_the_old_configuration_on_failure() {
    let key = key_pem(2048);
    let load = |input: &str| RuntimeConfig::load(settings(input)?, &key);
    let active = Arc::new(load(BASE).unwrap_or_else(|e| panic!("{e}")));
    let other = BASE.replace("selector=test", "selector=two");

    let off = KernelFips::Status("0".to_owned());
    let on = KernelFips::Status("1".to_owned());
    let decision = reload(Some(&active.listen), load(&other), &on, true);
    let (next, report) = reloaded(active.clone(), decision);
    assert_eq!(next.selector, "two");
    assert_eq!(report, "configuration reloaded");

    let moved = BASE.replace("tcp:127.0.0.1:8891", "unix:/run/x");
    for (current, loaded, kernel, expected) in [
        (
            Some(&active.listen),
            load("domain"),
            &on,
            "reload rejected: line 1: expected name=value",
        ),
        (
            Some(&active.listen),
            load(&other),
            &off,
            "reload rejected: system FIPS mode is disabled; dkim-lite production builds require FIPS",
        ),
        (
            Some(&active.listen),
            load(&moved),
            &on,
            "reload rejected: listen cannot change without restart",
        ),
        (
            None,
            load(&other),
            &on,
            "reload rejected: listen cannot change without restart",
        ),
    ] {
        let (next, report) = reloaded(active.clone(), reload(current, loaded, kernel, true));
        assert!(Arc::ptr_eq(&next, &active));
        assert_eq!(report, expected);
    }
}

#[test]
fn order_of_settings_makes_no_difference() {
    let mut lines: Vec<&str> = BASE.lines().collect();
    lines.push("require_fips=false");
    let first = settings(&lines.join("\n")).ok().unwrap();
    for _ in 0..lines.len() {
        lines.rotate_left(1);
        let text = format!("# note\n{}\n\n", lines.join("\n\n"));
        assert_eq!(tcp_listen_text(&text), Some("127.0.0.1:8891".to_owned()));
        let other = settings(&text).ok().unwrap();
        assert_eq!(first.domain, other.domain);
        assert_eq!(first.selector, other.selector);
        assert_eq!(first.private_key, other.private_key);
        assert_eq!(first.listen, other.listen);
        assert_eq!(first.require_fips, other.require_fips);
    }
}
