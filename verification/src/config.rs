//! The settings of the signer: names, listener, key, and FIPS policy.

use openssl::error::ErrorStack;
use openssl::pkey::{PKey, Private};
use std::sync::Arc;
use vstd::prelude::*;
use vstd::string::StringExecFns;
use vstd::utf8::encode_utf8;

use crate::crypto::{
    bits_of, error_text, is_encrypted, is_rsa, is_signature, key_bits,
    key_contents, pem_key, read_private_key, rsa_of, signer_finish, signer_input, signer_of, signer_update,
};
use crate::settings::{Settings, SettingsView};
use crate::text::{
    after_prefix, ascii_alnum, chars_of, concat2, decimal, decimal_of, find_char,
    is_ascii_alnum, is_text, join, lemma_split_join, lowered, split, split_chars, starts_with,
    string_of, strip_end, strip_trailing, to_lower, trim, trimmed,
};

verus! {

/// An IP address as one number, its first part highest.
#[derive(Clone, Copy, Debug, PartialEq, Eq, Structural)]
pub enum IpAddress {
    V4(u32),
    V6(u128),
}

impl IpAddress {
    /// The addresses 127.0.0.0 to 127.255.255.255, and ::1.
    pub open spec fn loopback(self) -> bool {
        match self {
            IpAddress::V4(bits) => 0x7f00_0000 <= bits <= 0x7fff_ffff,
            IpAddress::V6(bits) => bits == 1,
        }
    }

    pub fn is_loopback(&self) -> (r: bool)
        ensures
            r == self.loopback(),
    {
        match self {
            IpAddress::V4(bits) => 0x7f00_0000 <= *bits && *bits <= 0x7fff_ffff,
            IpAddress::V6(bits) => *bits == 1,
        }
    }
}

/// A TCP address in numbers. `scope` is the IPv6 scope, and 0 for IPv4.
#[derive(Clone, Copy, Debug, PartialEq, Eq, Structural)]
pub struct TcpAddress {
    pub ip: IpAddress,
    pub port: u16,
    pub scope: u32,
}

/// Where the signer listens.
#[derive(Debug)]
pub enum ListenAddr {
    Unix(String),
    Tcp(TcpAddress),
}

/// A listening address with its path as characters.
pub enum ListenView {
    Unix(Seq<char>),
    Tcp(TcpAddress),
}

impl View for ListenAddr {
    type V = ListenView;

    open spec fn view(&self) -> ListenView {
        match self {
            ListenAddr::Unix(path) => ListenView::Unix(path@),
            ListenAddr::Tcp(address) => ListenView::Tcp(*address),
        }
    }
}

impl Clone for ListenAddr {
    fn clone(&self) -> (r: Self)
        ensures
            r@ == self@,
    {
        match self {
            ListenAddr::Unix(path) => ListenAddr::Unix(path.clone()),
            ListenAddr::Tcp(address) => ListenAddr::Tcp(*address),
        }
    }
}

impl PartialEq for ListenAddr {
    fn eq(&self, other: &Self) -> (r: bool) {
        match (self, other) {
            (ListenAddr::Unix(a), ListenAddr::Unix(b)) => *a == *b,
            (ListenAddr::Tcp(a), ListenAddr::Tcp(b)) => *a == *b,
            _ => false,
        }
    }
}

impl Eq for ListenAddr {

}

impl vstd::std_specs::cmp::PartialEqSpecImpl for ListenAddr {
    open spec fn obeys_eq_spec() -> bool {
        true
    }

    open spec fn eq_spec(&self, other: &Self) -> bool {
        self@ == other@
    }
}

// DNS names.

pub const MAX_LABEL: usize = 63;

pub const MAX_DNS_NAME: usize = 253;

pub open spec fn is_label_char(c: char) -> bool {
    is_ascii_alnum(c) || c == '-'
}

/// One to 63 letters, digits and hyphens, with no hyphen at either end.
pub open spec fn is_label(label: Seq<char>) -> bool {
    &&& 0 < label.len() <= MAX_LABEL
    &&& label[0] != '-'
    &&& label.last() != '-'
    &&& forall|i: int| 0 <= i < label.len() ==> is_label_char(#[trigger] label[i])
}

/// Labels parted by dots, of at most 253 characters together.
pub open spec fn is_dns_name(name: Seq<char>) -> bool {
    &&& 0 < name.len() <= MAX_DNS_NAME
    &&& forall|i: int|
        0 <= i < split(name, '.').len() ==> is_label(#[trigger] split(name, '.')[i])
}

/// How a name is kept: in lower case, without final dots.
pub open spec fn dns_form(value: Seq<char>) -> Seq<char> {
    lowered(strip_trailing(value, '.'))
}

pub open spec fn dns_name_of(kind: Seq<char>, value: Seq<char>) -> Result<Seq<char>, Seq<char>> {
    if is_dns_name(dns_form(value)) {
        Ok(dns_form(value))
    } else {
        Err("invalid "@ + kind + ": "@ + dns_form(value))
    }
}

/// A result told by its characters.
pub open spec fn text_result(r: Result<String, String>) -> Result<Seq<char>, Seq<char>> {
    match r {
        Ok(text) => Ok(text@),
        Err(error) => Err(error@),
    }
}

fn valid_label(label: &[char]) -> (r: bool)
    ensures
        r == is_label(label@),
{
    let len: usize = label.len();
    if len == 0 || len > MAX_LABEL || label[0] == '-' || label[len - 1] == '-' {
        return false;
    }
    let mut i: usize = 0;
    while i < len
        invariant
            len == label@.len(),
            i <= len,
            forall|j: int| 0 <= j < i ==> is_label_char(#[trigger] label@[j]),
        decreases len - i,
    {
        let c = label[i];
        if !(ascii_alnum(c) || c == '-') {
            assert(!is_label_char(label@[i as int]));
            return false;
        }
        i += 1;
    }
    true
}

fn valid_dns_name(name: &[char]) -> (r: bool)
    ensures
        r == is_dns_name(name@),
{
    if name.len() == 0 || name.len() > MAX_DNS_NAME {
        return false;
    }
    let labels = split_chars(name, '.');
    let ghost all = split(name@, '.');
    let mut i: usize = 0;
    while i < labels.len()
        invariant
            i <= labels@.len(),
            all == split(name@, '.'),
            labels@.len() == all.len(),
            forall|j: int| 0 <= j < labels@.len() ==> (#[trigger] labels@[j])@ == all[j],
            forall|j: int| 0 <= j < i ==> is_label(#[trigger] all[j]),
        decreases labels@.len() - i,
    {
        if !valid_label(labels[i]) {
            assert(!is_label(all[i as int]));
            return false;
        }
        i += 1;
    }
    true
}

/// Takes a domain or a selector; `kind` says which, for the error.
pub fn validate_dns_name(kind: &str, value: &str) -> (r: Result<String, String>)
    ensures
        text_result(r) == dns_name_of(kind@, value@),
{
    let chars = chars_of(value);
    let name = to_lower(strip_end(chars.as_slice(), '.'));
    let text = string_of(name.as_slice());
    if valid_dns_name(name.as_slice()) {
        Ok(text)
    } else {
        let mut error = "invalid ".to_owned();
        error.append(kind);
        error.append(": ");
        error.append(text.as_str());
        Err(error)
    }
}

// The listener.

/// What a `listen` setting means. `tcp` is what the text after `tcp:` reads as, if it is a
/// socket address.
pub open spec fn listen_of(value: Seq<char>, tcp: Option<TcpAddress>) -> Result<
    ListenView,
    Seq<char>,
> {
    if starts_with(value, "unix:"@) {
        let path = value.skip("unix:"@.len() as int);
        if path.len() == 0 || path[0] != '/' || path.contains('\0') {
            Err("unix listen path must be absolute"@)
        } else {
            Ok(ListenView::Unix(path))
        }
    } else if starts_with(value, "tcp:"@) {
        match tcp {
            None => Err(
                "invalid TCP listen address: "@ + value.skip("tcp:"@.len() as int),
            ),
            Some(address) => if address.ip.loopback() {
                Ok(ListenView::Tcp(address))
            } else {
                Err("TCP listener must use a loopback address"@)
            },
        }
    } else {
        Err("listen must start with unix: or tcp:"@)
    }
}

pub open spec fn listen_result(r: Result<ListenAddr, String>) -> Result<ListenView, Seq<char>> {
    match r {
        Ok(listen) => Ok(listen@),
        Err(error) => Err(error@),
    }
}

fn has_char(s: &[char], c: char) -> (r: bool)
    ensures
        r == s@.contains(c),
{
    proof {
        crate::text::lemma_find(s@, c);
    }
    find_char(s, c).is_some()
}

/// Takes a `listen` setting, with what its TCP address reads as.
pub fn parse_listen(value: &str, tcp: Option<TcpAddress>) -> (r: Result<ListenAddr, String>)
    ensures
        listen_result(r) == listen_of(value@, tcp),
{
    let chars = chars_of(value);
    if let Some(path) = after_prefix(chars.as_slice(), "unix:") {
        if path.len() == 0 || path[0] != '/' || has_char(path, '\0') {
            return Err("unix listen path must be absolute".to_owned());
        }
        return Ok(ListenAddr::Unix(string_of(path)));
    }
    if let Some(text) = after_prefix(chars.as_slice(), "tcp:") {
        return match tcp {
            None => Err(concat2("invalid TCP listen address: ", string_of(text).as_str())),
            Some(address) => if address.ip.is_loopback() {
                Ok(ListenAddr::Tcp(address))
            } else {
                Err("TCP listener must use a loopback address".to_owned())
            },
        };
    }
    Err("listen must start with unix: or tcp:".to_owned())
}

// The key.

pub const MIN_KEY_BITS: u32 = 2048;

pub const MAX_KEY_BITS: u32 = 4096;

/// What is wrong with an RSA key of so many bits.
pub open spec fn key_size_error(bits: int) -> Option<Seq<char>> {
    if bits < MIN_KEY_BITS {
        Some("RSA key is "@ + decimal(bits as nat) + " bits; at least 2048 required"@)
    } else if bits > MAX_KEY_BITS {
        Some("RSA key is "@ + decimal(bits as nat) + " bits; at most 4096 supported"@)
    } else {
        None
    }
}

/// Tells whether a key of so many bits is neither too short nor too long.
pub fn check_key_size(bits: u32) -> (r: Result<(), String>)
    ensures
        match r {
            Ok(()) => key_size_error(bits as int) is None,
            Err(error) => key_size_error(bits as int) == Some(error@),
        },
{
    if bits >= MIN_KEY_BITS && bits <= MAX_KEY_BITS {
        return Ok(());
    }
    let mut error = "RSA key is ".to_owned();
    error.append(decimal_of(bits as u64).as_str());
    if bits < MIN_KEY_BITS {
        error.append(" bits; at least 2048 required");
    } else {
        error.append(" bits; at most 4096 supported");
    }
    Err(error)
}

/// Whether the key makes a signature of the text that keys are tried on.
pub open spec fn passes_self_test(contents: Seq<u8>) -> bool {
    exists|signature: Seq<u8>| #[trigger]
        is_signature(contents, encode_utf8("dkim-lite startup self-test"@), signature)
}

/// A key that messages can be signed with: an RSA key of 2048 to 4096 bits that makes signatures.
pub open spec fn is_usable_key(contents: Seq<u8>) -> bool {
    &&& is_rsa(contents)
    &&& MIN_KEY_BITS <= key_bits(contents) <= MAX_KEY_BITS
    &&& passes_self_test(contents)
}

/// Why a key was refused: it is no RSA key; it has the wrong size; or, for an RSA key of a good
/// size, OpenSSL cannot sign with it.
pub open spec fn is_key_error(contents: Seq<u8>, error: Seq<char>) -> bool {
    if !is_rsa(contents) {
        error == "private key must be RSA"@
    } else {
        match key_size_error(key_bits(contents)) {
            Some(why) => error == why,
            None => {
                ||| starts_with(error, "RSA-SHA256 is unavailable from system OpenSSL: "@)
                ||| starts_with(error, "RSA-SHA256 startup self-test failed: "@)
            },
        }
    }
}

/// Tells whether a key can be used: an RSA key of a good size that OpenSSL signs with.
pub fn validate_key(key: &PKey<Private>) -> (r: Result<(), String>)
    ensures
        match r {
            Ok(()) => is_usable_key(key_contents(*key)),
            Err(error) => is_key_error(key_contents(*key), error@),
        },
{
    match rsa_of(key) {
        Ok(_) => {},
        Err(_) => return Err("private key must be RSA".to_owned()),
    }
    match check_key_size(bits_of(key)) {
        Ok(()) => {},
        Err(error) => return Err(error),
    }
    let mut signer = match signer_of(key) {
        Ok(signer) => signer,
        Err(error) => return Err(
            with_cause("RSA-SHA256 is unavailable from system OpenSSL: ", &error),
        ),
    };
    let text = "dkim-lite startup self-test".as_bytes();
    match signer_update(&mut signer, text) {
        Ok(()) => {},
        Err(error) => return Err(with_cause("RSA-SHA256 startup self-test failed: ", &error)),
    }
    match signer_finish(&signer) {
        Ok(signature) => {
            assert(signer_input(signer) =~= text@);
            assert(is_signature(key_contents(*key), text@, signature@));
            Ok(())
        },
        Err(error) => Err(with_cause("RSA-SHA256 startup self-test failed: ", &error)),
    }
}

/// An error text with what OpenSSL says of it.
pub(crate) fn with_cause(what: &str, error: &ErrorStack) -> (r: String)
    ensures
        starts_with(r@, what@),
{
    let cause = error_text(error);
    let r = concat2(what, cause.as_str());
    assert(r@.take(what@.len() as int) =~= what@);
    r
}

/// Why the key of a PEM text was refused: it is encrypted, it cannot be read, or it is of no use.
pub open spec fn is_load_error(pem: Seq<u8>, error: Seq<char>) -> bool {
    if is_encrypted(pem) {
        error == "cannot parse unencrypted PEM private key: the key is encrypted"@
    } else {
        ||| starts_with(error, "cannot parse unencrypted PEM private key: "@)
        ||| is_key_error(pem_key(pem), error)
    }
}

/// The settings that messages are signed with.
pub struct RuntimeConfig {
    pub domain: String,
    pub selector: String,
    pub private_key: String,
    pub listen: ListenAddr,
    pub require_fips: bool,
    pub key: Arc<PKey<Private>>,
}

impl RuntimeConfig {
    pub open spec fn settings(self) -> SettingsView {
        SettingsView {
            domain: self.domain@,
            selector: self.selector@,
            private_key: self.private_key@,
            listen: self.listen@,
            require_fips: self.require_fips,
        }
    }

    /// Puts settings together with the key, whose PEM text is `key_bytes`.
    pub fn load(settings: Settings, key_bytes: &[u8]) -> (r: Result<Self, String>)
        requires
            key_bytes@.len() <= i32::MAX,
        ensures
            match r {
                Ok(config) => {
                    &&& config.settings() == settings@
                    &&& !is_encrypted(key_bytes@)
                    &&& key_contents(*config.key) == pem_key(key_bytes@)
                    &&& is_usable_key(pem_key(key_bytes@))
                },
                Err(error) => is_load_error(key_bytes@, error@),
            },
    {
        let (read, encrypted) = read_private_key(key_bytes);
        if encrypted {
            return Err(
                "cannot parse unencrypted PEM private key: the key is encrypted".to_owned(),
            );
        }
        let key = match read {
            Ok(key) => key,
            Err(error) => return Err(
                with_cause("cannot parse unencrypted PEM private key: ", &error),
            ),
        };
        match validate_key(&key) {
            Ok(()) => {},
            Err(error) => return Err(error),
        }
        Ok(
            RuntimeConfig {
                domain: settings.domain,
                selector: settings.selector,
                private_key: settings.private_key,
                listen: settings.listen,
                require_fips: settings.require_fips,
                key: Arc::new(key),
            },
        )
    }
}

impl Clone for RuntimeConfig {
    fn clone(&self) -> (r: Self)
        ensures
            r.settings() == self.settings(),
            *r.key == *self.key,
    {
        RuntimeConfig {
            domain: self.domain.clone(),
            selector: self.selector.clone(),
            private_key: self.private_key.clone(),
            listen: self.listen.clone(),
            require_fips: self.require_fips,
            key: self.key.clone(),
        }
    }
}

// FIPS mode.

/// The Debug form of a string, as std writes it.
pub uninterp spec fn debug_text_of(text: Seq<char>) -> Seq<char>;

/// `Debug` for `str` writes the text in quotes, with what cannot be printed escaped.
#[verifier::external_body]
pub(crate) fn debug_text(text: &str) -> (r: String)
    ensures
        r@ == debug_text_of(text@),
{
    format!("{:?}", text)
}

/// What the file that tells the kernel's FIPS mode held, or why it could not be read.
pub enum KernelFips {
    Status(String),
    Unreadable(String),
}

/// Why the environment does not meet a demand for FIPS mode.
pub open spec fn fips_error(kernel: KernelFips, openssl_enabled: bool) -> Option<Seq<char>> {
    match kernel {
        KernelFips::Status(value) => if trimmed(value@) == "1"@ {
            if openssl_enabled {
                None
            } else {
                Some("kernel FIPS mode is enabled but system OpenSSL is not in FIPS mode"@)
            }
        } else if trimmed(value@) == "0"@ {
            Some("system FIPS mode is disabled; dkim-lite production builds require FIPS"@)
        } else {
            Some(
                "unexpected FIPS status in /proc/sys/crypto/fips_enabled: "@ + debug_text_of(
                    value@,
                ),
            )
        },
        KernelFips::Unreadable(why) => Some(
            "cannot inspect /proc/sys/crypto/fips_enabled: "@ + why@,
        ),
    }
}

/// Tells whether FIPS mode is active where it is required. Both the kernel and OpenSSL must
/// report it.
pub fn check_fips_environment(required: bool, kernel: &KernelFips, openssl_enabled: bool) -> (r:
    Result<(), String>)
    ensures
        match r {
            Ok(()) => !required || fips_error(*kernel, openssl_enabled) is None,
            Err(error) => required && fips_error(*kernel, openssl_enabled) == Some(error@),
        },
{
    if !required {
        return Ok(());
    }
    match kernel {
        KernelFips::Status(value) => {
            let chars = chars_of(value.as_str());
            let status = trim(chars.as_slice());
            if is_text(status, "1") {
                if openssl_enabled {
                    Ok(())
                } else {
                    Err(
                        "kernel FIPS mode is enabled but system OpenSSL is not in FIPS mode".to_owned(),
                    )
                }
            } else if is_text(status, "0") {
                Err(
                    "system FIPS mode is disabled; dkim-lite production builds require FIPS".to_owned(),
                )
            } else {
                Err(
                    concat2(
                        "unexpected FIPS status in /proc/sys/crypto/fips_enabled: ",
                        debug_text(value.as_str()).as_str(),
                    ),
                )
            }
        },
        KernelFips::Unreadable(why) => Err(
            concat2("cannot inspect /proc/sys/crypto/fips_enabled: ", why.as_str()),
        ),
    }
}

// Reloading.

/// Decides on a reload. The new configuration becomes active only if it could be loaded, FIPS mode
/// is as it asks, and it listens where the present one does; `current` is `None` if the present
/// one cannot be read. The error says why the present one stays.
pub fn reload(
    current: Option<&ListenAddr>,
    loaded: Result<RuntimeConfig, String>,
    kernel: &KernelFips,
    openssl_enabled: bool,
) -> (r: Result<RuntimeConfig, String>)
    ensures
        match loaded {
            Err(error) => r == Err::<RuntimeConfig, String>(error),
            Ok(config) => if config.require_fips && fips_error(*kernel, openssl_enabled) is Some {
                r matches Err(error) && fips_error(*kernel, openssl_enabled) == Some(error@)
            } else if current is Some && current->0@ == config.listen@ {
                r == Ok::<RuntimeConfig, String>(config)
            } else {
                r matches Err(error) && error@ == "listen cannot change without restart"@
            },
        },
{
    let config = match loaded {
        Ok(config) => config,
        Err(error) => return Err(error),
    };
    match check_fips_environment(config.require_fips, kernel, openssl_enabled) {
        Ok(()) => {},
        Err(error) => return Err(error),
    }
    let same = match current {
        Some(listen) => *listen == config.listen,
        None => false,
    };
    if same {
        Ok(config)
    } else {
        Err("listen cannot change without restart".to_owned())
    }
}

// What is accepted.

/// RSA keys of 2048 to 4096 bits are good, and no others.
pub proof fn law_good_key_sizes(bits: int)
    ensures
        key_size_error(bits) is None <==> 2048 <= bits <= 4096,
{
}

/// A key is usable if and only if it is an RSA key of 2048 to 4096 bits that makes signatures, and
/// a usable key is refused only where OpenSSL fails.
pub proof fn law_usable_keys(contents: Seq<u8>, error: Seq<char>)
    ensures
        is_usable_key(contents) <==> is_rsa(contents) && 2048 <= key_bits(contents) <= 4096
            && passes_self_test(contents),
        is_usable_key(contents) && is_key_error(contents, error) ==> starts_with(
            error,
            "RSA-SHA256 is unavailable from system OpenSSL: "@,
        ) || starts_with(error, "RSA-SHA256 startup self-test failed: "@),
{
}

/// The loopback addresses are all of 127.0.0.0/8, and ::1.
pub proof fn law_loopback_addresses(v4: u32, v6: u128)
    ensures
        IpAddress::V4(v4).loopback() <==> v4 / 0x100_0000 == 127,
        IpAddress::V6(v6).loopback() <==> v6 == 1,
{
}

/// FIPS mode is active if and only if the kernel's status is 1 and OpenSSL reports it.
pub proof fn law_fips_needs_both(kernel: KernelFips, openssl_enabled: bool)
    ensures
        fips_error(kernel, openssl_enabled) is None <==> {
            &&& openssl_enabled
            &&& kernel matches KernelFips::Status(status) && trimmed(status@) == seq!['1']
        },
{
    reveal_strlit("1");
    reveal_strlit("0");
    assert("1"@ =~= seq!['1']);
}

/// A socket file is listened on if its path is absolute and has no zero character. A TCP address is,
/// if it is a loopback address.
pub proof fn law_local_listeners_are_taken(path: Seq<char>, text: Seq<char>, address: TcpAddress)
    ensures
        listen_of("unix:"@ + path, Some(address)) == if path.len() > 0 && path[0] == '/'
            && !path.contains('\0') {
            Ok::<ListenView, Seq<char>>(ListenView::Unix(path))
        } else {
            Err("unix listen path must be absolute"@)
        },
        listen_of("tcp:"@ + text, Some(address)) == if address.ip.loopback() {
            Ok::<ListenView, Seq<char>>(ListenView::Tcp(address))
        } else {
            Err("TCP listener must use a loopback address"@)
        },
        listen_of("tcp:"@ + text, None) is Err,
{
    reveal_strlit("unix:");
    reveal_strlit("tcp:");
    let unix = "unix:"@ + path;
    let tcp = "tcp:"@ + text;
    assert(unix.take(5) =~= "unix:"@);
    assert(unix.skip(5) =~= path);
    assert(tcp.take(4) =~= "tcp:"@);
    assert(tcp.skip(4) =~= text);
    if tcp.len() >= 5 {
        assert(tcp.take(5)[0] != "unix:"@[0]);
    }
}

/// Whether a text is one to 63 ASCII letters, digits and hyphens, with no hyphen at either end.
pub open spec fn is_good_label(label: Seq<char>) -> bool {
    &&& 1 <= label.len() <= 63
    &&& label.first() != '-' && label.last() != '-'
    &&& forall|i: int|
        0 <= i < label.len() ==> ('0' <= #[trigger] label[i] <= '9' || 'A' <= label[i] <= 'Z' || 'a'
            <= label[i] <= 'z' || label[i] == '-')
}

proof fn lemma_good_label(label: Seq<char>)
    requires
        is_good_label(label),
    ensures
        is_label(lowered(label)),
        !lowered(label).contains('.'),
        !label.contains('.'),
        is_good_label(lowered(label)),
{
    let lower = lowered(label);
    assert forall|i: int| 0 <= i < lower.len() implies is_label_char(#[trigger] lower[i]) && lower[i]
        != '.' && (label[i] != '-' ==> lower[i] != '-') && ('0' <= lower[i] <= '9' || 'a' <= lower[i]
        <= 'z' || lower[i] == '-') by {
        let c = label[i];
        assert('0' <= c <= '9' || 'A' <= c <= 'Z' || 'a' <= c <= 'z' || c == '-');
    }
    assert(label.first() == label[0] && label.last() == label[label.len() - 1]);
    if label.contains('.') {
        let k = choose|k: int| 0 <= k < label.len() && label[k] == '.';
        assert('0' <= label[k] <= '9' || 'A' <= label[k] <= 'Z' || 'a' <= label[k] <= 'z'
            || label[k] == '-');
    }
}

proof fn lemma_lowered_join(labels: Seq<Seq<char>>)
    ensures
        lowered(join(labels, seq!['.'])) == join(
            labels.map_values(|l: Seq<char>| lowered(l)),
            seq!['.'],
        ),
    decreases labels.len(),
{
    let f = |l: Seq<char>| lowered(l);
    let lower = labels.map_values(f);
    if labels.len() == 0 {
        assert(lowered(join(labels, seq!['.'])) =~= join(lower, seq!['.']));
    } else if labels.len() > 1 {
        lemma_lowered_join(labels.drop_last());
        assert(lower.drop_last() =~= labels.drop_last().map_values(f));
        assert(lowered(join(labels, seq!['.'])) =~= join(lower, seq!['.']));
    }
}

proof fn lemma_strip_dots(name: Seq<char>, dots: Seq<char>)
    requires
        name.len() == 0 || name.last() != '.',
        forall|i: int| 0 <= i < dots.len() ==> #[trigger] dots[i] == '.',
    ensures
        strip_trailing(name + dots, '.') == name,
    decreases dots.len(),
{
    if dots.len() == 0 {
        assert(name + dots =~= name);
    } else {
        lemma_strip_dots(name, dots.drop_last());
        assert((name + dots).drop_last() =~= name + dots.drop_last());
        assert((name + dots).last() == dots[dots.len() - 1]);
    }
}

/// A name of good labels, of at most 253 characters together with the dots between them, is taken
/// in lower case, with or without dots behind it.
pub proof fn law_good_names_are_taken(
    kind: Seq<char>,
    labels: Seq<Seq<char>>,
    dots: Seq<char>,
)
    requires
        labels.len() > 0,
        forall|i: int| 0 <= i < labels.len() ==> is_good_label(#[trigger] labels[i]),
        join(labels, seq!['.']).len() <= 253,
        forall|i: int| 0 <= i < dots.len() ==> #[trigger] dots[i] == '.',
    ensures
        dns_name_of(kind, join(labels, seq!['.']) + dots) == Ok::<Seq<char>, Seq<char>>(
            lowered(join(labels, seq!['.'])),
        ),
{
    let name = join(labels, seq!['.']);
    let lower = labels.map_values(|l: Seq<char>| lowered(l));
    let last = labels.last();
    assert(last == labels[labels.len() - 1]);
    lemma_good_label(last);
    assert(name.len() > 0 && name.last() == last.last());
    assert(last.last() != '.') by {
        assert(last.last() == last[last.len() - 1]);
    }
    lemma_strip_dots(name, dots);
    lemma_lowered_join(labels);
    assert forall|i: int| 0 <= i < lower.len() implies is_label(#[trigger] lower[i])
        && !lower[i].contains('.') by {
        assert(is_good_label(labels[i]));
        lemma_good_label(labels[i]);
    }
    lemma_split_join(lower, '.');
}

/// A name that is taken has no other characters than lower-case ASCII letters, digits, hyphens and
/// dots.
pub proof fn law_taken_names_are_plain(kind: Seq<char>, value: Seq<char>)
    ensures
        dns_name_of(kind, value) matches Ok(name) ==> 1 <= name.len() <= 253 && forall|i: int|
            0 <= i < split(name, '.').len() ==> is_good_label(#[trigger] split(name, '.')[i]),
{
    if let Ok(name) = dns_name_of(kind, value) {
        assert forall|i: int| 0 <= i < split(name, '.').len() implies is_good_label(
            #[trigger] split(name, '.')[i],
        ) by {
            let label = split(name, '.')[i];
            assert(is_label(label));
            assert forall|k: int| 0 <= k < label.len() implies ('0' <= #[trigger] label[k] <= '9'
                || 'A' <= label[k] <= 'Z' || 'a' <= label[k] <= 'z' || label[k] == '-') by {
                assert(is_label_char(label[k]));
            }
        }
    }
}

/// A listener that is neither a socket file nor a TCP address is refused.
pub proof fn law_other_listeners_are_refused(value: Seq<char>, tcp: Option<TcpAddress>)
    requires
        value.len() < 5 || value.take(5) != "unix:"@,
        value.len() < 4 || value.take(4) != "tcp:"@,
    ensures
        listen_of(value, tcp) == Err::<ListenView, Seq<char>>(
            "listen must start with unix: or tcp:"@,
        ),
{
    reveal_strlit("unix:");
    reveal_strlit("tcp:");
}

} // verus!
