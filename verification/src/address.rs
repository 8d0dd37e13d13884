//! The domain of the one address in a From header.

use vstd::prelude::*;
use vstd::slice::slice_subrange;
use vstd::utf8::*;

use crate::text::{
    ascii_alnum, chars_of, is_ascii_alnum, is_white_space, lemma_trim_round, lemma_trimmed, lowered, string_of, strip_end, strip_trailing, to_lower,
    trim, trimmed,
};

verus! {

/// `std::str::from_utf8` gives the text that the bytes encode, if they are valid UTF-8.
#[verifier::external_body]
pub(crate) fn utf8_text(bytes: &[u8]) -> (r: Option<&str>)
    ensures
        match r {
            Some(text) => valid_utf8(bytes@) && text@ == decode_utf8(bytes@),
            None => !valid_utf8(bytes@),
        },
{
    std::str::from_utf8(bytes).ok()
}

/// Where a reader stands in an address list: within a quoted string, after a backslash there,
/// within how many comments, within how many angle brackets, and after how many commas that
/// part addresses.
pub struct Scan {
    pub quoted: bool,
    pub escaped: bool,
    pub comments: nat,
    pub angles: nat,
    pub commas: nat,
}

pub open spec fn scan_char(at: Scan, c: char) -> Scan {
    if at.escaped {
        Scan { escaped: false, ..at }
    } else if at.quoted && c == '\\' {
        Scan { escaped: true, ..at }
    } else if at.comments == 0 && c == '"' {
        Scan { quoted: !at.quoted, ..at }
    } else if at.quoted {
        at
    } else if c == '(' {
        Scan { comments: at.comments + 1, ..at }
    } else if c == ')' && at.comments > 0 {
        Scan { comments: (at.comments - 1) as nat, ..at }
    } else if c == '<' && at.comments == 0 {
        Scan { angles: at.angles + 1, ..at }
    } else if c == '>' && at.comments == 0 && at.angles > 0 {
        Scan { angles: (at.angles - 1) as nat, ..at }
    } else if c == ',' && at.comments == 0 && at.angles == 0 {
        Scan { commas: at.commas + 1, ..at }
    } else {
        at
    }
}

pub open spec fn scan(text: Seq<char>) -> Scan
    decreases text.len(),
{
    if text.len() == 0 {
        Scan { quoted: false, escaped: false, comments: 0, angles: 0, commas: 0 }
    } else {
        scan_char(scan(text.drop_last()), text.last())
    }
}

/// Everything opened is closed again, and no comma parts two addresses.
pub open spec fn is_one_address(text: Seq<char>) -> bool {
    let end = scan(text);
    !end.quoted && end.comments == 0 && end.angles == 0 && end.commas == 0
}

/// Whether a reader stands outside comments and quoted strings.
pub open spec fn is_outside(at: Scan) -> bool {
    !at.quoted && at.comments == 0
}

/// Whether the character at `i` stands outside comments and quoted strings.
pub open spec fn outside(text: Seq<char>, i: int) -> bool {
    is_outside(scan(text.take(i)))
}

/// The position of the last `c` outside comments and quoted strings.
pub open spec fn last_outside(text: Seq<char>, c: char) -> Option<int>
    decreases text.len(),
{
    if text.len() == 0 {
        None
    } else if text.last() == c && is_outside(scan(text.drop_last())) {
        Some(text.len() - 1)
    } else {
        last_outside(text.drop_last(), c)
    }
}

/// The address itself: what stands between the last angle brackets, or the whole text if it has
/// none. Brackets in comments and quoted strings do not count.
pub open spec fn address_part(text: Seq<char>) -> Option<Seq<char>> {
    match (last_outside(text, '<'), last_outside(text, '>')) {
        (Some(start), Some(end)) => if start < end {
            Some(text.subrange(start + 1, end))
        } else {
            None
        },
        (None, None) => Some(text),
        _ => None,
    }
}

pub open spec fn is_domain_char(c: char) -> bool {
    is_ascii_alnum(c) || c == '-' || c == '.'
}

/// The domain of an address, in lower case and without final dots. An at sign in a comment or a
/// quoted string does not count.
pub open spec fn domain_part(address: Seq<char>) -> Option<Seq<char>> {
    match last_outside(address, '@') {
        Some(at) => {
            let domain = strip_trailing(trimmed(address.skip(at + 1)), '.');
            if domain.len() > 0 && forall|i: int|
                0 <= i < domain.len() ==> is_domain_char(#[trigger] domain[i]) {
                Some(lowered(domain))
            } else {
                None
            }
        },
        None => None,
    }
}

pub open spec fn domain_of_text(text: Seq<char>) -> Option<Seq<char>> {
    if !is_one_address(text) {
        None
    } else {
        match address_part(text) {
            Some(address) => domain_part(address),
            None => None,
        }
    }
}

/// The domain of the single address in a From value, if there is exactly one.
pub open spec fn from_domain_of(value: Seq<u8>) -> Option<Seq<char>> {
    if valid_utf8(value) {
        domain_of_text(trimmed(decode_utf8(value)))
    } else {
        None
    }
}

/// A reader of an address list.
struct Scanner {
    quoted: bool,
    escaped: bool,
    comments: usize,
    angles: usize,
    commas: usize,
}

impl View for Scanner {
    type V = Scan;

    closed spec fn view(&self) -> Scan {
        Scan {
            quoted: self.quoted,
            escaped: self.escaped,
            comments: self.comments as nat,
            angles: self.angles as nat,
            commas: self.commas as nat,
        }
    }
}

impl Scanner {
    fn new() -> (r: Self)
        ensures
            r@ == scan(Seq::empty()),
    {
        Scanner { quoted: false, escaped: false, comments: 0, angles: 0, commas: 0 }
    }

    fn take(&mut self, c: char)
        requires
            old(self)@.comments < usize::MAX,
            old(self)@.angles < usize::MAX,
            old(self)@.commas < usize::MAX,
        ensures
            final(self)@ == scan_char(old(self)@, c),
    {
        if self.escaped {
            self.escaped = false;
        } else if self.quoted && c == '\\' {
            self.escaped = true;
        } else if self.comments == 0 && c == '"' {
            self.quoted = !self.quoted;
        } else if self.quoted {
        } else if c == '(' {
            self.comments += 1;
        } else if c == ')' && self.comments > 0 {
            self.comments -= 1;
        } else if c == '<' && self.comments == 0 {
            self.angles += 1;
        } else if c == '>' && self.comments == 0 && self.angles > 0 {
            self.angles -= 1;
        } else if c == ',' && self.comments == 0 && self.angles == 0 {
            self.commas += 1;
        }
    }
}

fn one_address(text: &[char]) -> (r: bool)
    ensures
        r == is_one_address(text@),
{
    let mut scanner = Scanner::new();
    let mut i: usize = 0;
    assert(text@.take(0) =~= Seq::empty());
    while i < text.len()
        invariant
            i <= text@.len(),
            scanner@ == scan(text@.take(i as int)),
            scanner@.comments <= i,
            scanner@.angles <= i,
            scanner@.commas <= i,
        decreases text@.len() - i,
    {
        assert(text@.take(i + 1).drop_last() =~= text@.take(i as int));
        scanner.take(text[i]);
        i += 1;
    }
    assert(text@.take(i as int) =~= text@);
    !scanner.quoted && scanner.comments == 0 && scanner.angles == 0 && scanner.commas == 0
}

fn find_last_outside(text: &[char], c: char) -> (r: Option<usize>)
    ensures
        match r {
            Some(i) => i < text@.len() && last_outside(text@, c) == Some(i as int),
            None => last_outside(text@, c) is None,
        },
{
    let mut scanner = Scanner::new();
    let mut found: Option<usize> = None;
    let mut i: usize = 0;
    assert(text@.take(0) =~= Seq::empty());
    while i < text.len()
        invariant
            i <= text@.len(),
            scanner@ == scan(text@.take(i as int)),
            scanner@.comments <= i,
            scanner@.angles <= i,
            scanner@.commas <= i,
            match found {
                Some(k) => k < i && last_outside(text@.take(i as int), c) == Some(k as int),
                None => last_outside(text@.take(i as int), c) is None,
            },
        decreases text@.len() - i,
    {
        assert(text@.take(i + 1).drop_last() =~= text@.take(i as int));
        if text[i] == c && !scanner.quoted && scanner.comments == 0 {
            found = Some(i);
        }
        scanner.take(text[i]);
        i += 1;
    }
    assert(text@.take(i as int) =~= text@);
    found
}

fn all_domain_chars(s: &[char]) -> (r: bool)
    ensures
        r == (forall|i: int| 0 <= i < s@.len() ==> is_domain_char(#[trigger] s@[i])),
{
    let mut i: usize = 0;
    while i < s.len()
        invariant
            i <= s@.len(),
            forall|j: int| 0 <= j < i ==> is_domain_char(#[trigger] s@[j]),
        decreases s@.len() - i,
    {
        let c = s[i];
        if !(ascii_alnum(c) || c == '-' || c == '.') {
            assert(!is_domain_char(s@[i as int]));
            return false;
        }
        i += 1;
    }
    true
}

/// The domain of the single address in a From value.
pub fn from_domain(value: &[u8]) -> (r: Option<String>)
    ensures
        match r {
            Some(domain) => from_domain_of(value@) == Some(domain@),
            None => from_domain_of(value@) is None,
        },
{
    let decoded = match utf8_text(value) {
        Some(text) => chars_of(text),
        None => return None,
    };
    let text = trim(decoded.as_slice());
    if !one_address(text) {
        return None;
    }
    let address = match (find_last_outside(text, '<'), find_last_outside(text, '>')) {
        (Some(start), Some(end)) => {
            if start < end {
                slice_subrange(text, start + 1, end)
            } else {
                return None;
            }
        },
        (None, None) => text,
        _ => return None,
    };
    let at = match find_last_outside(address, '@') {
        Some(at) => at,
        None => return None,
    };
    let len: usize = address.len();
    let after = slice_subrange(address, at + 1, len);
    assert(after@ =~= address@.skip(at + 1));
    let domain = strip_end(trim(after), '.');
    if domain.len() == 0 || !all_domain_chars(domain) {
        return None;
    }
    let lower = to_lower(domain);
    Some(string_of(lower.as_slice()))
}

proof fn lemma_stripped(s: Seq<char>, c: char)
    ensures
        strip_trailing(s, c).len() > 0 ==> strip_trailing(s, c).last() != c,
    decreases s.len(),
{
    if s.len() > 0 && s.last() == c {
        lemma_stripped(s.drop_last(), c);
    }
}

/// A domain that was found is one or more letters, digits, hyphens and dots, in lower case, and
/// does not end in a dot.
pub proof fn law_from_domains_are_plain(value: Seq<u8>)
    ensures
        from_domain_of(value) matches Some(domain) ==> {
            &&& domain.len() > 0
            &&& domain.last() != '.'
            &&& lowered(domain) == domain
            &&& forall|i: int| 0 <= i < domain.len() ==> is_domain_char(#[trigger] domain[i])
        },
{
    if let Some(domain) = from_domain_of(value) {
        let text = trimmed(decode_utf8(value));
        let address = address_part(text)->0;
        let at = last_outside(address, '@')->0;
        let raw = strip_trailing(trimmed(address.skip(at + 1)), '.');
        lemma_stripped(trimmed(address.skip(at + 1)), '.');
        assert(domain == lowered(raw));
        assert(is_domain_char(raw.last()));
        assert(lowered(domain) =~= domain);
        assert forall|i: int| 0 <= i < domain.len() implies is_domain_char(
            #[trigger] domain[i],
        ) by {
            assert(is_domain_char(raw[i]));
        }
    }
}

/// What marks the address and its domain stands outside comments and quoted strings, and is the
/// last that does.
pub proof fn law_marks_stand_outside(text: Seq<char>, c: char)
    ensures
        match last_outside(text, c) {
            Some(i) => {
                &&& 0 <= i < text.len() && text[i] == c && outside(text, i)
                &&& forall|j: int| i < j < text.len() && #[trigger] outside(text, j) ==> text[j] != c
            },
            None => forall|j: int|
                0 <= j < text.len() && #[trigger] outside(text, j) ==> text[j] != c,
        },
    decreases text.len(),
{
    if text.len() > 0 {
        let front = text.drop_last();
        let n = text.len() - 1;
        law_marks_stand_outside(front, c);
        assert(text.take(n) =~= front);
        assert(outside(text, n) == is_outside(scan(front)));
        if text[n] == c && outside(text, n) {
            assert(last_outside(text, c) == Some(n));
        } else {
            assert(last_outside(text, c) == last_outside(front, c));
            if let Some(i) = last_outside(front, c) {
                lemma_outside_front(text, i);
            }
            assert forall|j: int|
                (last_outside(front, c) matches Some(i) ==> i < j) && 0 <= j < text.len()
                    && #[trigger] outside(text, j) implies text[j] != c by {
                if j < n {
                    lemma_outside_front(text, j);
                    assert(front[j] == text[j]);
                }
            }
        }
    }
}

proof fn lemma_outside_front(text: Seq<char>, j: int)
    requires
        0 <= j < text.len() - 1,
    ensures
        outside(text, j) == outside(text.drop_last(), j),
{
    assert(text.take(j) =~= text.drop_last().take(j));
}

// The addresses that are understood.

/// Whether a text, in whatever script, has no quotes, backslashes, parentheses, angle brackets,
/// commas and at signs.
pub open spec fn is_plain_text(s: Seq<char>) -> bool {
    forall|i: int|
        0 <= i < s.len() ==> #[trigger] s[i] != '"' && s[i] != '\\' && s[i] != '(' && s[i] != ')'
            && s[i] != '<' && s[i] != '>' && s[i] != ',' && s[i] != '@'
}

/// A character that is no white space: one of printable ASCII, or of the scripts from Latin to
/// Canadian Aboriginal, or of those from Hiragana on.
pub open spec fn is_visible_char(c: char) -> bool {
    ' ' < c <= '~' || '\u{a1}' <= c < '\u{1680}' || c > '\u{3000}'
}

/// Whether a text is one or more ASCII letters, digits, hyphens and dots, and does not end in a
/// dot.
pub open spec fn is_mail_domain(s: Seq<char>) -> bool {
    &&& s.len() > 0
    &&& s.last() != '.'
    &&& forall|i: int|
        0 <= i < s.len() ==> ('0' <= #[trigger] s[i] <= '9' || 'A' <= s[i] <= 'Z' || 'a' <= s[i]
            <= 'z' || s[i] == '-' || s[i] == '.')
}

/// A mailbox as it is written.
pub open spec fn mailbox(local: Seq<char>, domain: Seq<char>) -> Seq<char> {
    local + seq!['@'] + domain
}

/// Nothing is open, and no comma was read.
spec fn neutral() -> Scan {
    Scan { quoted: false, escaped: false, comments: 0, angles: 0, commas: 0 }
}

/// Whether a scan passes over a character without a change.
spec fn is_inert(c: char) -> bool {
    c != '"' && c != '\\' && c != '(' && c != ')' && c != '<' && c != '>' && c != ','
}

proof fn lemma_inert(s: Seq<char>, t: Seq<char>, c: char)
    requires
        !scan(s).escaped,
        forall|i: int| 0 <= i < t.len() ==> is_inert(#[trigger] t[i]) && t[i] != c,
    ensures
        scan(s + t) == scan(s),
        last_outside(s + t, c) == last_outside(s, c),
    decreases t.len(),
{
    if t.len() == 0 {
        assert(s + t =~= s);
    } else {
        let front = t.drop_last();
        assert forall|i: int| 0 <= i < front.len() implies is_inert(#[trigger] front[i]) && front[i]
            != c by {
            assert(front[i] == t[i]);
        }
        lemma_inert(s, front, c);
        assert((s + t).drop_last() =~= s + front);
        assert((s + t).last() == t[t.len() - 1]);
    }
}

proof fn lemma_step(s: Seq<char>, x: char, c: char)
    ensures
        scan(s.push(x)) == scan_char(scan(s), x),
        last_outside(s.push(x), c) == if x == c && is_outside(scan(s)) {
            Some(s.len() as int)
        } else {
            last_outside(s, c)
        },
{
    assert(s.push(x).drop_last() =~= s);
}

proof fn lemma_in_quotes(s: Seq<char>, q: Seq<char>, c: char)
    requires
        scan(s).quoted,
        !scan(s).escaped,
        scan(s).comments == 0,
        !q.contains('"'),
        !q.contains('\\'),
    ensures
        scan(s + q) == scan(s),
        last_outside(s + q, c) == last_outside(s, c),
    decreases q.len(),
{
    if q.len() == 0 {
        assert(s + q =~= s);
    } else {
        let front = q.drop_last();
        assert(q.contains(q[q.len() - 1]));
        assert forall|x: char| front.contains(x) implies q.contains(x) by {
            let k = choose|k: int| 0 <= k < front.len() && front[k] == x;
            assert(q[k] == x);
        }
        lemma_in_quotes(s, front, c);
        assert((s + q).drop_last() =~= s + front);
        assert((s + q).last() == q.last());
    }
}

proof fn lemma_in_comment(s: Seq<char>, q: Seq<char>, c: char)
    requires
        !scan(s).quoted,
        !scan(s).escaped,
        scan(s).comments == 1,
        !q.contains('('),
        !q.contains(')'),
    ensures
        scan(s + q) == scan(s),
        last_outside(s + q, c) == last_outside(s, c),
    decreases q.len(),
{
    if q.len() == 0 {
        assert(s + q =~= s);
    } else {
        let front = q.drop_last();
        assert(q.contains(q[q.len() - 1]));
        assert forall|x: char| front.contains(x) implies q.contains(x) by {
            let k = choose|k: int| 0 <= k < front.len() && front[k] == x;
            assert(q[k] == x);
        }
        lemma_in_comment(s, front, c);
        assert((s + q).drop_last() =~= s + front);
        assert((s + q).last() == q.last());
    }
}

proof fn lemma_domain_chars(domain: Seq<char>)
    requires
        is_mail_domain(domain),
    ensures
        forall|i: int| 0 <= i < domain.len() ==> is_domain_char(#[trigger] domain[i]),
        forall|i: int|
            0 <= i < domain.len() ==> is_inert(#[trigger] domain[i]) && domain[i] != '@'
                && !is_white_space(domain[i]),
{
    assert forall|i: int| 0 <= i < domain.len() implies is_domain_char(#[trigger] domain[i]) by {
        assert('0' <= domain[i] <= '9' || 'A' <= domain[i] <= 'Z' || 'a' <= domain[i] <= 'z'
            || domain[i] == '-' || domain[i] == '.');
    }
    assert forall|i: int| 0 <= i < domain.len() implies is_inert(#[trigger] domain[i]) && domain[i]
        != '@' && !is_white_space(domain[i]) by {
        assert(is_domain_char(domain[i]));
    }
}

proof fn lemma_plain(s: Seq<char>, c: char)
    requires
        is_plain_text(s),
        c == '@' || c == '<' || c == '>',
    ensures
        forall|i: int| 0 <= i < s.len() ==> is_inert(#[trigger] s[i]) && s[i] != c,
{
}

/// The domain of a mailbox by itself.
proof fn lemma_mailbox(local: Seq<char>, domain: Seq<char>)
    requires
        is_plain_text(local),
        is_mail_domain(domain),
    ensures
        domain_part(mailbox(local, domain)) == Some(lowered(domain)),
        mailbox(local, domain).len() > 0,
        mailbox(local, domain).last() == domain.last(),
{
    let nothing = Seq::<char>::empty();
    let address = mailbox(local, domain);
    lemma_plain(local, '@');
    lemma_domain_chars(domain);
    lemma_inert(nothing, local, '@');
    assert(nothing + local =~= local);
    lemma_step(local, '@', '@');
    assert(local + seq!['@'] =~= local.push('@'));
    lemma_inert(local.push('@'), domain, '@');
    assert(address.skip(local.len() as int + 1) =~= domain);
    assert(!is_white_space(domain[0]) && !is_white_space(domain[domain.len() - 1]));
    lemma_trimmed(domain);
    assert(domain.last() != '.');
    assert(strip_trailing(domain, '.') == domain);
}

proof fn lemma_scan_mailbox(s: Seq<char>, local: Seq<char>, domain: Seq<char>, c: char)
    requires
        is_plain_text(local),
        is_mail_domain(domain),
        !scan(s).escaped,
        c == '<' || c == '>',
    ensures
        scan(s + mailbox(local, domain)) == scan(s),
        last_outside(s + mailbox(local, domain), c) == last_outside(s, c),
{
    let t = mailbox(local, domain);
    lemma_plain(local, c);
    lemma_domain_chars(domain);
    assert forall|i: int| 0 <= i < t.len() implies is_inert(#[trigger] t[i]) && t[i] != c by {
        if i < local.len() {
            assert(t[i] == local[i]);
        } else if i > local.len() {
            let d = domain[i - local.len() - 1];
            assert(t[i] == d);
            assert(is_domain_char(d));
        }
    }
    lemma_inert(s, t, c);
}

/// What stands before and after an address in angle brackets makes no difference where it holds
/// no brackets outside comments and quoted strings.
proof fn lemma_brackets(before: Seq<char>, local: Seq<char>, domain: Seq<char>)
    requires
        is_plain_text(local),
        is_mail_domain(domain),
        scan(before) == neutral(),
    ensures
        ({
            let text = before + seq!['<'] + mailbox(local, domain) + seq!['>'];
            &&& scan(text) == neutral()
            &&& last_outside(text, '<') == Some(before.len() as int)
            &&& last_outside(text, '>') == Some(text.len() - 1)
            &&& text.subrange(before.len() as int + 1, text.len() - 1) == mailbox(local, domain)
        }),
{
    let open = before.push('<');
    let full = open + mailbox(local, domain);
    let text = before + seq!['<'] + mailbox(local, domain) + seq!['>'];
    lemma_step(before, '<', '<');
    lemma_scan_mailbox(open, local, domain, '<');
    lemma_scan_mailbox(open, local, domain, '>');
    lemma_step(full, '>', '<');
    lemma_step(full, '>', '>');
    assert(text =~= full.push('>'));
    assert(text.subrange(before.len() as int + 1, text.len() - 1) =~= mailbox(local, domain));
}

proof fn lemma_text_of(text: Seq<char>)
    requires
        trimmed(text) == text,
    ensures
        from_domain_of(encode_utf8(text)) == domain_of_text(text),
{
    encode_utf8_valid_utf8(text);
    encode_utf8_decode_utf8(text);
}

/// The domain of a mailbox that stands by itself is found, whatever letters, digits, hyphens and
/// dots it is made of.
pub proof fn law_domains_of_mailboxes_are_found(local: Seq<char>, domain: Seq<char>)
    requires
        is_plain_text(local),
        local.len() > 0,
        is_visible_char(local[0]),
        is_mail_domain(domain),
    ensures
        from_domain_of(encode_utf8(local + seq!['@'] + domain)) == Some(lowered(domain)),
{
    let text = mailbox(local, domain);
    let nothing = Seq::<char>::empty();
    lemma_mailbox(local, domain);
    lemma_scan_mailbox(nothing, local, domain, '<');
    lemma_scan_mailbox(nothing, local, domain, '>');
    assert(nothing + text =~= text);
    lemma_domain_chars(domain);
    assert(text[0] == local[0]);
    assert(!is_white_space(domain[domain.len() - 1]));
    lemma_trimmed(text);
    lemma_text_of(text);
}

/// The domain of a mailbox in angle brackets is found after a display name, in which at signs do
/// not count.
pub proof fn law_domains_after_names_are_found(
    display: Seq<char>,
    local: Seq<char>,
    domain: Seq<char>,
)
    requires
        forall|i: int|
            0 <= i < display.len() ==> #[trigger] display[i] != '"' && display[i] != '\\'
                && display[i] != '(' && display[i] != ')' && display[i] != '<' && display[i] != '>'
                && display[i] != ',',
        display.len() > 0,
        is_visible_char(display[0]),
        is_plain_text(local),
        is_mail_domain(domain),
    ensures
        from_domain_of(
            encode_utf8(display + seq![' ', '<'] + (local + seq!['@'] + domain) + seq!['>']),
        ) == Some(lowered(domain)),
{
    let nothing = Seq::<char>::empty();
    let before = display.push(' ');
    let text = display + seq![' ', '<'] + mailbox(local, domain) + seq!['>'];
    assert forall|i: int| 0 <= i < display.len() implies is_inert(#[trigger] display[i]) && display[
        i] != '<' by {}
    lemma_inert(nothing, display, '<');
    assert(nothing + display =~= display);
    lemma_step(display, ' ', '<');
    lemma_brackets(before, local, domain);
    assert(text =~= before + seq!['<'] + mailbox(local, domain) + seq!['>']);
    lemma_mailbox(local, domain);
    assert(text[0] == display[0]);
    lemma_trimmed(text);
    lemma_text_of(text);
}

/// The domain of a mailbox in angle brackets is found after a quoted string, whatever brackets,
/// commas and at signs that holds.
pub proof fn law_domains_after_quoted_names_are_found(
    quoted: Seq<char>,
    local: Seq<char>,
    domain: Seq<char>,
)
    requires
        !quoted.contains('"'),
        !quoted.contains('\\'),
        is_plain_text(local),
        is_mail_domain(domain),
    ensures
        from_domain_of(
            encode_utf8(
                seq!['"'] + quoted + seq!['"', ' ', '<'] + (local + seq!['@'] + domain) + seq!['>'],
            ),
        ) == Some(lowered(domain)),
{
    let nothing = Seq::<char>::empty();
    let open = nothing.push('"');
    let inner = open + quoted;
    let shut = inner.push('"');
    let before = shut.push(' ');
    let text = seq!['"'] + quoted + seq!['"', ' ', '<'] + mailbox(local, domain) + seq!['>'];
    lemma_step(nothing, '"', '<');
    lemma_in_quotes(open, quoted, '<');
    lemma_step(inner, '"', '<');
    lemma_step(shut, ' ', '<');
    lemma_brackets(before, local, domain);
    assert(text =~= before + seq!['<'] + mailbox(local, domain) + seq!['>']);
    lemma_mailbox(local, domain);
    assert(text[0] == '"');
    lemma_trimmed(text);
    lemma_text_of(text);
}

/// The domain of a mailbox in angle brackets is found before a comment, whatever brackets, commas,
/// quotes and at signs that holds.
pub proof fn law_domains_before_comments_are_found(
    local: Seq<char>,
    domain: Seq<char>,
    comment: Seq<char>,
)
    requires
        !comment.contains('('),
        !comment.contains(')'),
        is_plain_text(local),
        is_mail_domain(domain),
    ensures
        from_domain_of(
            encode_utf8(
                seq!['<'] + (local + seq!['@'] + domain) + seq!['>', ' ', '('] + comment + seq![')'],
            ),
        ) == Some(lowered(domain)),
{
    let nothing = Seq::<char>::empty();
    let mail = mailbox(local, domain);
    let first = nothing + seq!['<'] + mail + seq!['>'];
    let spaced = first.push(' ');
    let open = spaced.push('(');
    let inner = open + comment;
    let text = seq!['<'] + mail + seq!['>', ' ', '('] + comment + seq![')'];
    lemma_brackets(nothing, local, domain);
    lemma_step(first, ' ', '<');
    lemma_step(first, ' ', '>');
    lemma_step(spaced, '(', '<');
    lemma_step(spaced, '(', '>');
    lemma_in_comment(open, comment, '<');
    lemma_in_comment(open, comment, '>');
    lemma_step(inner, ')', '<');
    lemma_step(inner, ')', '>');
    assert(text =~= inner.push(')'));
    lemma_mailbox(local, domain);
    assert(text.subrange(1, mail.len() as int + 1) =~= mail);
    assert(text[0] == '<');
    lemma_trimmed(text);
    lemma_text_of(text);
}

/// A comma between two mailboxes is refused: there is no single address.
pub proof fn law_lists_are_refused(
    a_local: Seq<char>,
    a_domain: Seq<char>,
    b_local: Seq<char>,
    b_domain: Seq<char>,
)
    requires
        is_plain_text(a_local),
        a_local.len() > 0,
        is_visible_char(a_local[0]),
        is_mail_domain(a_domain),
        is_plain_text(b_local),
        is_mail_domain(b_domain),
    ensures
        from_domain_of(
            encode_utf8(
                a_local + seq!['@'] + a_domain + seq![','] + (b_local + seq!['@'] + b_domain),
            ),
        ) is None,
{
    let nothing = Seq::<char>::empty();
    let first = mailbox(a_local, a_domain);
    let listed = first.push(',');
    let text = a_local + seq!['@'] + a_domain + seq![','] + mailbox(b_local, b_domain);
    lemma_scan_mailbox(nothing, a_local, a_domain, '<');
    assert(nothing + first =~= first);
    lemma_step(first, ',', '<');
    lemma_scan_mailbox(listed, b_local, b_domain, '<');
    assert(text =~= listed + mailbox(b_local, b_domain));
    lemma_domain_chars(b_domain);
    assert(text.last() == b_domain[b_domain.len() - 1]);
    assert(text[0] == a_local[0]);
    lemma_trimmed(text);
    lemma_text_of(text);
}

/// A reader of an address list goes by the grammar. In a quoted string a backslash escapes the next
/// character and a quote ends the string. In a comment parentheses nest, and nothing else counts.
/// Elsewhere a quote opens a string, a parenthesis a comment and an angle bracket an address, and a
/// comma counts if it is in no address.
pub proof fn law_readers_go_by_the_grammar(at: Scan, c: char)
    ensures
        ({
            let next = scan_char(at, c);
            &&& at.escaped ==> next == (Scan { escaped: false, ..at })
            &&& !at.escaped && at.quoted && at.comments == 0 ==> next == if c == '\\' {
                Scan { escaped: true, ..at }
            } else if c == '"' {
                Scan { quoted: false, ..at }
            } else {
                at
            }
            &&& !at.escaped && !at.quoted && at.comments > 0 ==> next == if c == '(' {
                Scan { comments: at.comments + 1, ..at }
            } else if c == ')' {
                Scan { comments: (at.comments - 1) as nat, ..at }
            } else {
                at
            }
            &&& !at.escaped && !at.quoted && at.comments == 0 ==> next == if c == '"' {
                Scan { quoted: true, ..at }
            } else if c == '(' {
                Scan { comments: 1, ..at }
            } else if c == '<' {
                Scan { angles: at.angles + 1, ..at }
            } else if c == '>' && at.angles > 0 {
                Scan { angles: (at.angles - 1) as nat, ..at }
            } else if c == ',' && at.angles == 0 {
                Scan { commas: at.commas + 1, ..at }
            } else {
                at
            }
        }),
{
}

/// Dots behind a domain are dropped.
pub proof fn law_final_dots_are_dropped(local: Seq<char>, domain: Seq<char>, dots: Seq<char>)
    requires
        is_plain_text(local),
        local.len() > 0,
        is_visible_char(local[0]),
        is_mail_domain(domain),
        forall|i: int| 0 <= i < dots.len() ==> #[trigger] dots[i] == '.',
    ensures
        from_domain_of(encode_utf8(local + seq!['@'] + domain + dots)) == Some(lowered(domain)),
{
    let nothing = Seq::<char>::empty();
    let plain = mailbox(local, domain);
    let text = plain + dots;
    assert(text =~= local + seq!['@'] + domain + dots);
    lemma_scan_mailbox(nothing, local, domain, '<');
    lemma_scan_mailbox(nothing, local, domain, '>');
    assert(nothing + plain =~= plain);
    lemma_inert(plain, dots, '<');
    lemma_inert(plain, dots, '>');
    lemma_plain(local, '@');
    lemma_domain_chars(domain);
    lemma_inert(nothing, local, '@');
    assert(nothing + local =~= local);
    lemma_step(local, '@', '@');
    assert(local + seq!['@'] =~= local.push('@'));
    lemma_inert(local.push('@'), domain, '@');
    assert(local.push('@') + domain =~= plain);
    lemma_inert(plain, dots, '@');
    let rest = domain + dots;
    assert(text.skip(local.len() as int + 1) =~= rest);
    assert(rest[0] == domain[0]);
    assert(!is_white_space(rest.last())) by {
        if dots.len() > 0 {
            assert(rest.last() == dots[dots.len() - 1]);
        } else {
            assert(rest.last() == domain[domain.len() - 1]);
        }
    }
    lemma_trimmed(rest);
    lemma_strip(domain, dots);
    assert(text[0] == local[0]);
    assert(text.last() == rest.last());
    lemma_trimmed(text);
    lemma_text_of(text);
}

proof fn lemma_strip(name: Seq<char>, dots: Seq<char>)
    requires
        name.len() == 0 || name.last() != '.',
        forall|i: int| 0 <= i < dots.len() ==> #[trigger] dots[i] == '.',
    ensures
        strip_trailing(name + dots, '.') == name,
    decreases dots.len(),
{
    if dots.len() == 0 {
        assert(name + dots =~= name);
    } else {
        lemma_strip(name, dots.drop_last());
        assert((name + dots).drop_last() =~= name + dots.drop_last());
        assert((name + dots).last() == dots[dots.len() - 1]);
    }
}

/// White space round a value makes no difference.
pub proof fn law_white_space_round_a_value_does_not_count(
    a: Seq<char>,
    text: Seq<char>,
    b: Seq<char>,
)
    requires
        text.len() > 0,
        !is_white_space(text[0]) && !is_white_space(text.last()),
        forall|i: int| 0 <= i < a.len() ==> is_white_space(#[trigger] a[i]),
        forall|i: int| 0 <= i < b.len() ==> is_white_space(#[trigger] b[i]),
    ensures
        from_domain_of(encode_utf8(a + text + b)) == from_domain_of(encode_utf8(text)),
{
    lemma_trim_round(a, text, b);
    lemma_trimmed(text);
    encode_utf8_valid_utf8(a + text + b);
    encode_utf8_decode_utf8(a + text + b);
    lemma_text_of(text);
}

/// A value that is not UTF-8, that leaves something open, or that has no at sign outside comments
/// and quoted strings has no domain.
pub proof fn law_broken_values_have_no_domain(value: Seq<u8>)
    ensures
        !valid_utf8(value) ==> from_domain_of(value) is None,
        ({
            let text = trimmed(decode_utf8(value));
            let end = scan(text);
            end.quoted || end.comments > 0 || end.angles > 0 || end.commas > 0 || last_outside(
                text,
                '@',
            ) is None && last_outside(text, '<') is None ==> from_domain_of(value) is None
        }),
{
}

/// The domain of a mailbox in angle brackets is found after a comment, whatever that holds.
pub proof fn law_domains_after_comments_are_found(
    comment: Seq<char>,
    local: Seq<char>,
    domain: Seq<char>,
)
    requires
        !comment.contains('('),
        !comment.contains(')'),
        is_plain_text(local),
        is_mail_domain(domain),
    ensures
        from_domain_of(
            encode_utf8(
                seq!['('] + comment + seq![')', ' ', '<'] + (local + seq!['@'] + domain) + seq!['>'],
            ),
        ) == Some(lowered(domain)),
{
    let nothing = Seq::<char>::empty();
    let open = nothing.push('(');
    let inner = open + comment;
    let shut = inner.push(')');
    let before = shut.push(' ');
    let text = seq!['('] + comment + seq![')', ' ', '<'] + mailbox(local, domain) + seq!['>'];
    lemma_step(nothing, '(', '<');
    lemma_in_comment(open, comment, '<');
    lemma_step(inner, ')', '<');
    lemma_step(shut, ' ', '<');
    lemma_brackets(before, local, domain);
    assert(text =~= before + seq!['<'] + mailbox(local, domain) + seq!['>']);
    lemma_mailbox(local, domain);
    assert(text[0] == '(');
    lemma_trimmed(text);
    lemma_text_of(text);
}

/// The domain of a mailbox is found after a local part in quotes, whatever brackets, commas and at
/// signs that holds.
pub proof fn law_domains_after_quoted_local_parts_are_found(
    quoted: Seq<char>,
    domain: Seq<char>,
)
    requires
        !quoted.contains('"'),
        !quoted.contains('\\'),
        is_mail_domain(domain),
    ensures
        from_domain_of(encode_utf8(seq!['"'] + quoted + seq!['"', '@'] + domain)) == Some(
            lowered(domain),
        ),
{
    let nothing = Seq::<char>::empty();
    let open = nothing.push('"');
    let inner = open + quoted;
    let shut = inner.push('"');
    let at = shut.push('@');
    let text = seq!['"'] + quoted + seq!['"', '@'] + domain;
    lemma_domain_chars(domain);
    assert(text =~= at + domain);
    lemma_quoted_start(quoted, '<');
    lemma_quoted_start(quoted, '>');
    lemma_quoted_start(quoted, '@');
    lemma_step(shut, '@', '<');
    lemma_step(shut, '@', '>');
    lemma_step(shut, '@', '@');
    assert forall|i: int| 0 <= i < domain.len() implies is_inert(#[trigger] domain[i]) && domain[i]
        != '<' && domain[i] != '>' && domain[i] != '@' by {}
    lemma_inert(at, domain, '<');
    lemma_inert(at, domain, '>');
    lemma_inert(at, domain, '@');
    assert(text.skip(shut.len() as int + 1) =~= domain);
    assert(!is_white_space(domain[0]) && !is_white_space(domain[domain.len() - 1]));
    lemma_trimmed(domain);
    assert(strip_trailing(domain, '.') == domain);
    assert(text[0] == '"');
    assert(text.last() == domain[domain.len() - 1]);
    lemma_trimmed(text);
    lemma_text_of(text);
}

proof fn lemma_quoted_start(quoted: Seq<char>, c: char)
    requires
        !quoted.contains('"'),
        !quoted.contains('\\'),
        c != '"',
    ensures
        ({
            let shut = (Seq::<char>::empty().push('"') + quoted).push('"');
            scan(shut) == neutral() && last_outside(shut, c) is None
        }),
{
    let nothing = Seq::<char>::empty();
    let open = nothing.push('"');
    let inner = open + quoted;
    lemma_step(nothing, '"', c);
    lemma_in_quotes(open, quoted, c);
    lemma_step(inner, '"', c);
}

} // verus!
