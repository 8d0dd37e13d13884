//! The configuration file: one `name=value` on each line, and comments.

use vstd::prelude::*;
use vstd::slice::slice_subrange;
use vstd::string::StringExecFns;

use crate::config::{
    dns_form, dns_name_of, is_dns_name, listen_of, parse_listen, validate_dns_name, ListenAddr,
    ListenView, TcpAddress,
};
use crate::text::{
    after_prefix, chars_of, decimal, decimal_of, find, find_char, is_text, is_white_space, join,
    lemma_find_is, lemma_split_join, lemma_trim_round, lemma_trimmed, lowered, split, split_chars,
    starts_with, string_of, trim, trimmed,
};

verus! {

/// What a configuration file says.
pub struct Settings {
    pub domain: String,
    pub selector: String,
    pub private_key: String,
    pub listen: ListenAddr,
    pub require_fips: bool,
}

/// Settings with their texts as characters.
pub struct SettingsView {
    pub domain: Seq<char>,
    pub selector: Seq<char>,
    pub private_key: Seq<char>,
    pub listen: ListenView,
    pub require_fips: bool,
}

impl View for Settings {
    type V = SettingsView;

    open spec fn view(&self) -> SettingsView {
        SettingsView {
            domain: self.domain@,
            selector: self.selector@,
            private_key: self.private_key@,
            listen: self.listen@,
            require_fips: self.require_fips,
        }
    }
}

/// The settings of the lines read so far.
pub struct DraftView {
    pub domain: Option<Seq<char>>,
    pub selector: Option<Seq<char>>,
    pub private_key: Option<Seq<char>>,
    pub listen: Option<ListenView>,
    pub require_fips: Option<bool>,
}

pub open spec fn empty_draft() -> DraftView {
    DraftView { domain: None, selector: None, private_key: None, listen: None, require_fips: None }
}

/// What one line says.
pub enum LineView {
    Blank,
    NoEquals,
    Setting(Seq<char>, Seq<char>),
}

/// A line without the white space round it is empty, or a comment, or a name and a value parted
/// by the first equals sign.
pub open spec fn line_of(raw: Seq<char>) -> LineView {
    let line = trimmed(raw);
    if line.len() == 0 || line[0] == '#' {
        LineView::Blank
    } else {
        match find(line, '=') {
            None => LineView::NoEquals,
            Some(i) => LineView::Setting(trimmed(line.take(i)), trimmed(line.skip(i + 1))),
        }
    }
}

pub open spec fn line_error(number: nat, what: Seq<char>) -> Seq<char> {
    "line "@ + decimal(number) + ": "@ + what
}

/// Whether an earlier line gave this setting.
pub open spec fn is_set(draft: DraftView, name: Seq<char>) -> bool {
    ||| name == "domain"@ && draft.domain is Some
    ||| name == "selector"@ && draft.selector is Some
    ||| name == "private_key"@ && draft.private_key is Some
    ||| name == "listen"@ && draft.listen is Some
    ||| name == "require_fips"@ && draft.require_fips is Some
}

/// The draft after a line `name=value` that is not a repetition.
pub open spec fn with_setting(
    draft: DraftView,
    number: nat,
    name: Seq<char>,
    value: Seq<char>,
    tcp: Option<TcpAddress>,
) -> Result<DraftView, Seq<char>> {
    if name == "domain"@ {
        match dns_name_of("domain"@, value) {
            Ok(domain) => Ok(DraftView { domain: Some(domain), ..draft }),
            Err(error) => Err(error),
        }
    } else if name == "selector"@ {
        match dns_name_of("selector"@, value) {
            Ok(selector) => Ok(DraftView { selector: Some(selector), ..draft }),
            Err(error) => Err(error),
        }
    } else if name == "private_key"@ {
        Ok(DraftView { private_key: Some(value), ..draft })
    } else if name == "listen"@ {
        match listen_of(value, tcp) {
            Ok(listen) => Ok(DraftView { listen: Some(listen), ..draft }),
            Err(error) => Err(error),
        }
    } else if name == "require_fips"@ {
        if value == "true"@ {
            Ok(DraftView { require_fips: Some(true), ..draft })
        } else if value == "false"@ {
            Ok(DraftView { require_fips: Some(false), ..draft })
        } else {
            Err(line_error(number, "require_fips must be true or false"@))
        }
    } else {
        Err(line_error(number, "unknown setting "@ + name))
    }
}

/// The draft after a line that says this.
pub open spec fn with_line_view(
    draft: DraftView,
    number: nat,
    line: LineView,
    tcp: Option<TcpAddress>,
) -> Result<DraftView, Seq<char>> {
    match line {
        LineView::Blank => Ok(draft),
        LineView::NoEquals => Err(line_error(number, "expected name=value"@)),
        LineView::Setting(name, value) => if value.len() == 0 {
            Err(line_error(number, "empty value for "@ + name))
        } else if is_set(draft, name) {
            Err(line_error(number, "duplicate setting "@ + name))
        } else {
            with_setting(draft, number, name, value, tcp)
        },
    }
}

/// The draft after one more line.
pub open spec fn with_line(
    draft: DraftView,
    number: nat,
    raw: Seq<char>,
    tcp: Option<TcpAddress>,
) -> Result<DraftView, Seq<char>> {
    with_line_view(draft, number, line_of(raw), tcp)
}

/// The draft after all lines, or the error of the first wrong one.
pub open spec fn with_lines(raws: Seq<Seq<char>>, tcp: Option<TcpAddress>) -> Result<
    DraftView,
    Seq<char>,
>
    decreases raws.len(),
{
    if raws.len() == 0 {
        Ok(empty_draft())
    } else {
        match with_lines(raws.drop_last(), tcp) {
            Ok(draft) => with_line(draft, raws.len(), raws.last(), tcp),
            Err(error) => Err(error),
        }
    }
}

/// A complete draft; FIPS mode is required unless a line says otherwise.
pub open spec fn completed(draft: DraftView) -> Result<SettingsView, Seq<char>> {
    match draft.domain {
        None => Err("missing domain"@),
        Some(domain) => match draft.selector {
            None => Err("missing selector"@),
            Some(selector) => match draft.private_key {
                None => Err("missing private_key"@),
                Some(private_key) => if private_key.len() == 0 || private_key[0] != '/' {
                    Err("private_key must be an absolute path"@)
                } else {
                    match draft.listen {
                        None => Err("missing listen"@),
                        Some(listen) => Ok(
                            SettingsView {
                                domain,
                                selector,
                                private_key,
                                listen,
                                require_fips: draft.require_fips != Some(false),
                            },
                        ),
                    }
                },
            },
        },
    }
}

/// What a configuration file says, or the first error in it. `tcp` is what the text after `tcp:`
/// in its `listen` setting reads as.
pub open spec fn settings_of(input: Seq<char>, tcp: Option<TcpAddress>) -> Result<
    SettingsView,
    Seq<char>,
> {
    match with_lines(split(input, '\n'), tcp) {
        Ok(draft) => completed(draft),
        Err(error) => Err(error),
    }
}

struct Draft {
    domain: Option<String>,
    selector: Option<String>,
    private_key: Option<String>,
    listen: Option<ListenAddr>,
    require_fips: Option<bool>,
}

spec fn text_option(text: Option<String>) -> Option<Seq<char>> {
    match text {
        Some(text) => Some(text@),
        None => None,
    }
}

impl View for Draft {
    type V = DraftView;

    closed spec fn view(&self) -> DraftView {
        DraftView {
            domain: text_option(self.domain),
            selector: text_option(self.selector),
            private_key: text_option(self.private_key),
            listen: match self.listen {
                Some(listen) => Some(listen@),
                None => None,
            },
            require_fips: self.require_fips,
        }
    }
}

spec fn draft_result(r: Result<Draft, String>) -> Result<DraftView, Seq<char>> {
    match r {
        Ok(draft) => Ok(draft@),
        Err(error) => Err(error@),
    }
}

fn at_line(number: usize, what: &str) -> (r: String)
    ensures
        r@ == line_error(number as nat, what@),
{
    let mut r = "line ".to_owned();
    r.append(decimal_of(number as u64).as_str());
    r.append(": ");
    r.append(what);
    r
}

fn at_line_named(number: usize, what: &str, name: &[char]) -> (r: String)
    ensures
        r@ == line_error(number as nat, what@ + name@),
{
    let mut text = what.to_owned();
    text.append(string_of(name).as_str());
    at_line(number, text.as_str())
}

/// What one line says.
enum Line<'a> {
    Blank,
    NoEquals,
    Setting(&'a [char], &'a [char]),
}

spec fn line_view(line: Line<'_>) -> LineView {
    match line {
        Line::Blank => LineView::Blank,
        Line::NoEquals => LineView::NoEquals,
        Line::Setting(name, value) => LineView::Setting(name@, value@),
    }
}

fn read_line<'a>(raw: &'a [char]) -> (r: Line<'a>)
    ensures
        line_view(r) == line_of(raw@),
{
    let line = trim(raw);
    let len: usize = line.len();
    if len == 0 || line[0] == '#' {
        return Line::Blank;
    }
    match find_char(line, '=') {
        None => Line::NoEquals,
        Some(i) => {
            let before = slice_subrange(line, 0, i);
            let after = slice_subrange(line, i + 1, len);
            assert(before@ =~= line@.take(i as int));
            assert(after@ =~= line@.skip(i + 1));
            Line::Setting(trim(before), trim(after))
        },
    }
}

fn already_set(draft: &Draft, name: &[char]) -> (r: bool)
    ensures
        r == is_set(draft@, name@),
{
    (is_text(name, "domain") && draft.domain.is_some()) || (is_text(name, "selector")
        && draft.selector.is_some()) || (is_text(name, "private_key")
        && draft.private_key.is_some()) || (is_text(name, "listen") && draft.listen.is_some()) || (
    is_text(name, "require_fips") && draft.require_fips.is_some())
}

fn take_setting(
    draft: Draft,
    number: usize,
    name: &[char],
    value: &[char],
    tcp: Option<TcpAddress>,
) -> (r: Result<Draft, String>)
    ensures
        draft_result(r) == with_setting(draft@, number as nat, name@, value@, tcp),
{
    let mut draft = draft;
    let text = string_of(value);
    if is_text(name, "domain") {
        match validate_dns_name("domain", text.as_str()) {
            Ok(domain) => draft.domain = Some(domain),
            Err(error) => return Err(error),
        }
    } else if is_text(name, "selector") {
        match validate_dns_name("selector", text.as_str()) {
            Ok(selector) => draft.selector = Some(selector),
            Err(error) => return Err(error),
        }
    } else if is_text(name, "private_key") {
        draft.private_key = Some(text);
    } else if is_text(name, "listen") {
        match parse_listen(text.as_str(), tcp) {
            Ok(listen) => draft.listen = Some(listen),
            Err(error) => return Err(error),
        }
    } else if is_text(name, "require_fips") {
        if is_text(value, "true") {
            draft.require_fips = Some(true);
        } else if is_text(value, "false") {
            draft.require_fips = Some(false);
        } else {
            return Err(at_line(number, "require_fips must be true or false"));
        }
    } else {
        return Err(at_line_named(number, "unknown setting ", name));
    }
    Ok(draft)
}

fn take_line(draft: Draft, number: usize, raw: &[char], tcp: Option<TcpAddress>) -> (r: Result<
    Draft,
    String,
>)
    ensures
        draft_result(r) == with_line(draft@, number as nat, raw@, tcp),
{
    match read_line(raw) {
        Line::Blank => Ok(draft),
        Line::NoEquals => Err(at_line(number, "expected name=value")),
        Line::Setting(name, value) => {
            if value.len() == 0 {
                Err(at_line_named(number, "empty value for ", name))
            } else if already_set(&draft, name) {
                Err(at_line_named(number, "duplicate setting ", name))
            } else {
                take_setting(draft, number, name, value, tcp)
            }
        },
    }
}

fn complete(draft: Draft) -> (r: Result<Settings, String>)
    ensures
        settings_result(r) == completed(draft@),
{
    let domain = match draft.domain {
        Some(domain) => domain,
        None => return Err("missing domain".to_owned()),
    };
    let selector = match draft.selector {
        Some(selector) => selector,
        None => return Err("missing selector".to_owned()),
    };
    let private_key = match draft.private_key {
        Some(private_key) => private_key,
        None => return Err("missing private_key".to_owned()),
    };
    if !is_absolute(private_key.as_str()) {
        return Err("private_key must be an absolute path".to_owned());
    }
    let listen = match draft.listen {
        Some(listen) => listen,
        None => return Err("missing listen".to_owned()),
    };
    let require_fips = match draft.require_fips {
        Some(require_fips) => require_fips,
        None => true,
    };
    Ok(Settings { domain, selector, private_key, listen, require_fips })
}

/// Whether a path starts at the root.
pub fn is_absolute(path: &str) -> (r: bool)
    ensures
        r == (path@.len() > 0 && path@[0] == '/'),
{
    let chars = chars_of(path);
    chars.len() > 0 && chars[0] == '/'
}

pub open spec fn settings_result(r: Result<Settings, String>) -> Result<SettingsView, Seq<char>> {
    match r {
        Ok(settings) => Ok(settings@),
        Err(error) => Err(error@),
    }
}

impl Settings {
    /// Reads the text of a configuration file. `tcp` is what the text that `tcp_listen_text`
    /// gives reads as, if it is a socket address.
    pub fn parse(input: &str, tcp: Option<TcpAddress>) -> (r: Result<Settings, String>)
        ensures
            settings_result(r) == settings_of(input@, tcp),
    {
        let chars = chars_of(input);
        let raws = split_chars(chars.as_slice(), '\n');
        let ghost all = split(input@, '\n');
        let mut draft = Draft {
            domain: None,
            selector: None,
            private_key: None,
            listen: None,
            require_fips: None,
        };
        let mut i: usize = 0;
        assert(all.take(0) =~= Seq::empty());
        while i < raws.len()
            invariant
                i <= raws@.len(),
                raws@.len() == all.len(),
                forall|j: int| 0 <= j < raws@.len() ==> (#[trigger] raws@[j])@ == all[j],
                with_lines(all.take(i as int), tcp) == Ok::<DraftView, Seq<char>>(draft@),
                all == split(input@, '\n'),
            decreases raws@.len() - i,
        {
            let raw = raws[i];
            let len: usize = raws.len();
            assert(all.take(i + 1).drop_last() =~= all.take(i as int));
            i += 1;
            match take_line(draft, i, raw, tcp) {
                Ok(next) => {
                    draft = next;
                },
                Err(error) => {
                    proof {
                        assert(with_lines(all.take(i as int), tcp) == Err::<DraftView, Seq<char>>(
                            error@,
                        ));
                        lemma_first_error(all, i as int, tcp);
                    }
                    return Err(error);
                },
            }
        }
        assert(all.take(i as int) =~= all);
        complete(draft)
    }
}

/// Later lines do not change an error.
proof fn lemma_first_error(raws: Seq<Seq<char>>, n: int, tcp: Option<TcpAddress>)
    requires
        0 <= n <= raws.len(),
        with_lines(raws.take(n), tcp) is Err,
    ensures
        with_lines(raws, tcp) == with_lines(raws.take(n), tcp),
    decreases raws.len() - n,
{
    if n == raws.len() {
        assert(raws.take(n) =~= raws);
    } else {
        assert(raws.take(n + 1).drop_last() =~= raws.take(n));
        lemma_first_error(raws, n + 1, tcp);
    }
}

/// The value of the first `listen` line.
pub open spec fn listen_value(raws: Seq<Seq<char>>) -> Option<Seq<char>>
    decreases raws.len(),
{
    if raws.len() == 0 {
        None
    } else {
        match line_of(raws[0]) {
            LineView::Setting(name, value) => if name == "listen"@ {
                Some(value)
            } else {
                listen_value(raws.drop_first())
            },
            _ => listen_value(raws.drop_first()),
        }
    }
}

/// The text after `tcp:` in the first `listen` line of a configuration file.
pub open spec fn tcp_text_of(input: Seq<char>) -> Option<Seq<char>> {
    match listen_value(split(input, '\n')) {
        Some(value) => if starts_with(value, "tcp:"@) {
            Some(value.skip("tcp:"@.len() as int))
        } else {
            None
        },
        None => None,
    }
}

/// The TCP address that a configuration file wants to listen on, as it is written.
pub fn tcp_listen_text(input: &str) -> (r: Option<String>)
    ensures
        match r {
            Some(text) => tcp_text_of(input@) == Some(text@),
            None => tcp_text_of(input@) is None,
        },
{
    let chars = chars_of(input);
    let raws = split_chars(chars.as_slice(), '\n');
    let ghost all = split(input@, '\n');
    let mut i: usize = 0;
    assert(all.skip(0) =~= all);
    while i < raws.len()
        invariant
            i <= raws@.len(),
            raws@.len() == all.len(),
            forall|j: int| 0 <= j < raws@.len() ==> (#[trigger] raws@[j])@ == all[j],
            listen_value(all) == listen_value(all.skip(i as int)),
            all == split(input@, '\n'),
        decreases raws@.len() - i,
    {
        let raw = raws[i];
        assert(all.skip(i as int)[0] == raw@);
        assert(all.skip(i as int).drop_first() =~= all.skip(i + 1));
        if let Line::Setting(name, value) = read_line(raw) {
            if is_text(name, "listen") {
                return match after_prefix(value, "tcp:") {
                    Some(text) => Some(string_of(text)),
                    None => None,
                };
            }
        }
        i += 1;
    }
    None
}

// What holds of settings.

/// A listener that is reached from this machine alone.
pub open spec fn is_local(listen: ListenView) -> bool {
    match listen {
        ListenView::Unix(path) => path.len() > 0 && path[0] == '/' && !path.contains('\0'),
        ListenView::Tcp(address) => address.ip.loopback(),
    }
}

/// A DNS name in lower case.
pub open spec fn is_lower_name(name: Seq<char>) -> bool {
    is_dns_name(name) && lowered(name) == name
}

spec fn is_good_draft(draft: DraftView) -> bool {
    &&& draft.domain matches Some(domain) ==> is_lower_name(domain)
    &&& draft.selector matches Some(selector) ==> is_lower_name(selector)
    &&& draft.listen matches Some(listen) ==> is_local(listen)
}

proof fn lemma_drafts_are_good(raws: Seq<Seq<char>>, tcp: Option<TcpAddress>)
    ensures
        with_lines(raws, tcp) matches Ok(draft) ==> is_good_draft(draft),
    decreases raws.len(),
{
    if raws.len() > 0 {
        lemma_drafts_are_good(raws.drop_last(), tcp);
        if let LineView::Setting(name, value) = line_of(raws.last()) {
            assert(lowered(dns_form(value)) =~= dns_form(value));
        }
    }
}

/// Settings that were accepted name a domain and a selector in lower case, a key by its whole
/// path, and a listener that is reached from this machine alone.
pub proof fn law_settings_are_valid(input: Seq<char>, tcp: Option<TcpAddress>)
    ensures
        settings_of(input, tcp) matches Ok(settings) ==> {
            &&& is_lower_name(settings.domain)
            &&& is_lower_name(settings.selector)
            &&& settings.private_key.len() > 0 && settings.private_key[0] == '/'
            &&& is_local(settings.listen)
        },
{
    lemma_drafts_are_good(split(input, '\n'), tcp);
}

/// A line that is blank or a comment makes no difference, wherever it stands, but for the numbers
/// of the lines after it in errors.
pub proof fn law_blank_lines_are_ignored(
    before: Seq<Seq<char>>,
    blank: Seq<char>,
    after: Seq<Seq<char>>,
    tcp: Option<TcpAddress>,
)
    requires
        line_of(blank) is Blank,
    ensures
        match with_lines(before + after, tcp) {
            Ok(draft) => with_lines(before.push(blank) + after, tcp) == Ok::<DraftView, Seq<char>>(
                draft,
            ),
            Err(_) => with_lines(before.push(blank) + after, tcp) is Err,
        },
    decreases after.len(),
{
    let plain = before + after;
    let more = before.push(blank) + after;
    if after.len() == 0 {
        assert(plain =~= before);
        assert(more =~= before.push(blank));
        assert(more.drop_last() =~= before);
    } else {
        law_blank_lines_are_ignored(before, blank, after.drop_last(), tcp);
        assert(plain.drop_last() =~= before + after.drop_last());
        assert(more.drop_last() =~= before.push(blank) + after.drop_last());
        assert(plain.last() == after.last() && more.last() == after.last());
    }
}

/// FIPS mode is required unless a line says that it is not.
pub proof fn law_fips_is_required_by_default(raws: Seq<Seq<char>>, tcp: Option<TcpAddress>)
    requires
        forall|i: int|
            0 <= i < raws.len() ==> !(line_of(#[trigger] raws[i]) matches LineView::Setting(
                name,
                _,
            ) && name == "require_fips"@),
    ensures
        with_lines(raws, tcp) matches Ok(draft) ==> draft.require_fips is None && (completed(
            draft,
        ) matches Ok(settings) ==> settings.require_fips),
    decreases raws.len(),
{
    if raws.len() > 0 {
        let front = raws.drop_last();
        assert forall|i: int| 0 <= i < front.len() implies !(line_of(
            #[trigger] front[i],
        ) matches LineView::Setting(name, _) && name == "require_fips"@) by {
            assert(front[i] == raws[i]);
        }
        law_fips_is_required_by_default(front, tcp);
        assert(raws.last() == raws[raws.len() - 1]);
    }
}

// The order of lines.

/// What the lines say that are neither blank nor comments.
pub open spec fn sayings(raws: Seq<Seq<char>>) -> Seq<LineView>
    decreases raws.len(),
{
    if raws.len() == 0 {
        Seq::empty()
    } else if line_of(raws.last()) is Blank {
        sayings(raws.drop_last())
    } else {
        sayings(raws.drop_last()).push(line_of(raws.last()))
    }
}

/// The draft after lines that say this, if none of them is wrong.
spec fn draft_of(lines: Seq<LineView>, tcp: Option<TcpAddress>) -> Option<DraftView>
    decreases lines.len(),
{
    if lines.len() == 0 {
        Some(empty_draft())
    } else {
        match draft_of(lines.drop_last(), tcp) {
            Some(draft) => match with_line_view(draft, 0, lines.last(), tcp) {
                Ok(next) => Some(next),
                Err(_) => None,
            },
            None => None,
        }
    }
}

proof fn lemma_draft_of_sayings(raws: Seq<Seq<char>>, tcp: Option<TcpAddress>)
    ensures
        match with_lines(raws, tcp) {
            Ok(draft) => draft_of(sayings(raws), tcp) == Some(draft),
            Err(_) => draft_of(sayings(raws), tcp) is None,
        },
    decreases raws.len(),
{
    if raws.len() > 0 {
        lemma_draft_of_sayings(raws.drop_last(), tcp);
        let before = sayings(raws.drop_last());
        let line = line_of(raws.last());
        assert(before.push(line).drop_last() =~= before);
    }
}

/// Two lines that can follow each other can also come the other way round.
proof fn lemma_swap(draft: DraftView, x: LineView, y: LineView, tcp: Option<TcpAddress>)
    requires
        with_line_view(draft, 0, x, tcp) is Ok,
        with_line_view(with_line_view(draft, 0, x, tcp)->Ok_0, 0, y, tcp) is Ok,
    ensures
        with_line_view(draft, 0, y, tcp) is Ok,
        with_line_view(with_line_view(draft, 0, y, tcp)->Ok_0, 0, x, tcp) == with_line_view(
            with_line_view(draft, 0, x, tcp)->Ok_0,
            0,
            y,
            tcp,
        ),
{
    reveal_strlit("domain");
    reveal_strlit("selector");
    reveal_strlit("private_key");
    reveal_strlit("listen");
    reveal_strlit("require_fips");
    assert("domain"@[0] != "selector"@[0]);
}

/// A line can be moved to the end.
proof fn lemma_move_to_end(lines: Seq<LineView>, i: int, tcp: Option<TcpAddress>)
    requires
        0 <= i < lines.len(),
        draft_of(lines, tcp) is Some,
    ensures
        draft_of(lines.remove(i).push(lines[i]), tcp) == draft_of(lines, tcp),
    decreases lines.len(),
{
    let x = lines[i];
    let moved = lines.remove(i).push(x);
    if i == lines.len() - 1 {
        assert(moved =~= lines);
    } else {
        let front = lines.drop_last();
        let y = lines.last();
        lemma_move_to_end(front, i, tcp);
        let rest = front.remove(i);
        assert(rest.push(x).drop_last() =~= rest);
        assert(draft_of(rest.push(x), tcp) == draft_of(front, tcp));
        let draft = draft_of(rest, tcp)->0;
        lemma_swap(draft, x, y, tcp);
        assert(moved =~= rest.push(y).push(x));
        assert(moved.drop_last() =~= rest.push(y));
        assert(rest.push(y).drop_last() =~= rest);
        assert(draft_of(rest.push(y), tcp) == Some(with_line_view(draft, 0, y, tcp)->Ok_0));
        assert(draft_of(lines, tcp) == Some(
            with_line_view(draft_of(front, tcp)->0, 0, y, tcp)->Ok_0,
        ));
    }
}

proof fn lemma_any_order(a: Seq<LineView>, b: Seq<LineView>, tcp: Option<TcpAddress>)
    requires
        a.to_multiset() == b.to_multiset(),
        draft_of(a, tcp) is Some,
    ensures
        draft_of(b, tcp) == draft_of(a, tcp),
    decreases b.len(),
{
    broadcast use vstd::seq_lib::group_to_multiset_ensures;

    assert(a.len() == a.to_multiset().len() && b.len() == b.to_multiset().len());
    if b.len() == 0 {
        assert(a =~= b);
    } else {
        let x = b.last();
        let front = b.drop_last();
        assert(b.to_multiset().count(x) > 0) by {
            assert(b.contains(x)) by {
                assert(b[b.len() - 1] == x);
            }
        }
        assert(a.contains(x));
        let i = choose|i: int| 0 <= i < a.len() && a[i] == x;
        lemma_move_to_end(a, i, tcp);
        let rest = a.remove(i);
        assert(rest.push(x).drop_last() =~= rest);
        assert(b.remove(b.len() - 1) =~= front);
        assert(rest.to_multiset() == front.to_multiset());
        lemma_any_order(rest, front, tcp);
    }
}

/// The order of lines makes no difference, nor do blank lines and comments. Two files that say the
/// same are both accepted, with the same settings, or both refused; `tcp` is what the address
/// reads as.
pub proof fn law_order_makes_no_difference(a: Seq<char>, b: Seq<char>, tcp: Option<TcpAddress>)
    requires
        sayings(split(a, '\n')).to_multiset() == sayings(split(b, '\n')).to_multiset(),
    ensures
        match settings_of(a, tcp) {
            Ok(settings) => settings_of(b, tcp) == Ok::<SettingsView, Seq<char>>(settings),
            Err(_) => settings_of(b, tcp) is Err,
        },
        settings_of(a, tcp) is Ok ==> tcp_text_of(a) == tcp_text_of(b),
{
    let first = split(a, '\n');
    let second = split(b, '\n');
    lemma_draft_of_sayings(first, tcp);
    lemma_draft_of_sayings(second, tcp);
    if draft_of(sayings(first), tcp) is Some {
        lemma_any_order(sayings(first), sayings(second), tcp);
        lemma_same_listener(first, second, tcp);
    } else if draft_of(sayings(second), tcp) is Some {
        lemma_any_order(sayings(second), sayings(first), tcp);
    }
}

spec fn is_listen(line: LineView) -> bool {
    line matches LineView::Setting(name, _) && name == "listen"@
}

proof fn lemma_sayings_front(raws: Seq<Seq<char>>)
    requires
        raws.len() > 0,
    ensures
        sayings(raws) == if line_of(raws[0]) is Blank {
            sayings(raws.drop_first())
        } else {
            seq![line_of(raws[0])] + sayings(raws.drop_first())
        },
    decreases raws.len(),
{
    let tail = raws.drop_first();
    if raws.len() == 1 {
        assert(raws.drop_last() =~= Seq::empty());
        assert(sayings(Seq::<Seq<char>>::empty()) =~= Seq::empty());
        assert(tail =~= Seq::empty());
        assert(sayings(raws) =~= if line_of(raws[0]) is Blank {
            Seq::empty()
        } else {
            seq![line_of(raws[0])]
        });
    } else {
        lemma_sayings_front(raws.drop_last());
        assert(raws.drop_last().drop_first() =~= tail.drop_last());
        assert(tail.last() == raws.last());
        assert(sayings(raws) =~= if line_of(raws[0]) is Blank {
            sayings(tail)
        } else {
            seq![line_of(raws[0])] + sayings(tail)
        });
    }
}

/// The value of the first `listen` line is that of a line, and is missing only if there is none.
proof fn lemma_listen_value(raws: Seq<Seq<char>>)
    ensures
        match listen_value(raws) {
            Some(value) => sayings(raws).contains(LineView::Setting("listen"@, value)),
            None => forall|i: int|
                0 <= i < sayings(raws).len() ==> !is_listen(#[trigger] sayings(raws)[i]),
        },
    decreases raws.len(),
{
    if raws.len() > 0 {
        let tail = raws.drop_first();
        lemma_sayings_front(raws);
        lemma_listen_value(tail);
        let line = line_of(raws[0]);
        if is_listen(line) {
            assert(sayings(raws)[0] == line);
        } else if !(line is Blank) {
            assert forall|i: int| 0 < i < sayings(raws).len() implies #[trigger] sayings(raws)[i]
                == sayings(tail)[i - 1] by {}
            if let Some(value) = listen_value(tail) {
                let wanted = LineView::Setting("listen"@, value);
                let k = choose|k: int| 0 <= k < sayings(tail).len() && sayings(tail)[k] == wanted;
                assert(sayings(raws)[k + 1] == wanted);
            }
        }
    }
}

/// Once there was a `listen` line, the draft has a listener.
proof fn lemma_listen_is_set(lines: Seq<LineView>, i: int, tcp: Option<TcpAddress>)
    requires
        0 <= i < lines.len(),
        is_listen(lines[i]),
        draft_of(lines, tcp) is Some,
    ensures
        draft_of(lines, tcp)->0.listen is Some,
    decreases lines.len(),
{
    reveal_strlit("domain");
    reveal_strlit("selector");
    reveal_strlit("private_key");
    reveal_strlit("listen");
    assert("listen"@[0] != "domain"@[0] && "listen"@[0] != "selector"@[0] && "listen"@[0]
        != "private_key"@[0]);
    if i < lines.len() - 1 {
        lemma_listen_is_set(lines.drop_last(), i, tcp);
    }
}

/// There are no two `listen` lines where no line is wrong.
proof fn lemma_one_listen(lines: Seq<LineView>, i: int, j: int, tcp: Option<TcpAddress>)
    requires
        0 <= i < j < lines.len(),
        is_listen(lines[i]),
        is_listen(lines[j]),
    ensures
        draft_of(lines, tcp) is None,
    decreases lines.len(),
{
    let front = lines.drop_last();
    if j < lines.len() - 1 {
        lemma_one_listen(front, i, j, tcp);
    } else if draft_of(front, tcp) is Some {
        lemma_listen_is_set(front, i, tcp);
    }
}

proof fn lemma_same_listener(
    first: Seq<Seq<char>>,
    second: Seq<Seq<char>>,
    tcp: Option<TcpAddress>,
)
    requires
        sayings(first).to_multiset() == sayings(second).to_multiset(),
        draft_of(sayings(first), tcp) is Some,
    ensures
        listen_value(first) == listen_value(second),
{
    broadcast use vstd::seq_lib::group_to_multiset_ensures;

    let a = sayings(first);
    let b = sayings(second);
    lemma_listen_value(first);
    lemma_listen_value(second);
    assert forall|line: LineView| a.contains(line) == b.contains(line) by {
        assert(a.contains(line) <==> a.to_multiset().count(line) > 0);
        assert(b.contains(line) <==> b.to_multiset().count(line) > 0);
    }
    match (listen_value(first), listen_value(second)) {
        (Some(x), Some(y)) => {
            let one = LineView::Setting("listen"@, x);
            let other = LineView::Setting("listen"@, y);
            assert(a.contains(one) && a.contains(other));
            let i = choose|i: int| 0 <= i < a.len() && a[i] == one;
            let j = choose|j: int| 0 <= j < a.len() && a[j] == other;
            if i < j {
                lemma_one_listen(a, i, j, tcp);
            } else if j < i {
                lemma_one_listen(a, j, i, tcp);
            }
        },
        (Some(x), None) => {
            let one = LineView::Setting("listen"@, x);
            assert(b.contains(one));
            let k = choose|k: int| 0 <= k < b.len() && b[k] == one;
            assert(is_listen(b[k]));
        },
        (None, Some(y)) => {
            let other = LineView::Setting("listen"@, y);
            assert(a.contains(other));
            let k = choose|k: int| 0 <= k < a.len() && a[k] == other;
            assert(is_listen(a[k]));
        },
        (None, None) => {},
    }
}

// The files that are read.

/// Whether a text can be the name or the value of a setting: it is not empty, is on one line, and
/// has no white space at its ends.
pub open spec fn is_neat(s: Seq<char>) -> bool {
    &&& s.len() > 0
    &&& !is_white_space(s[0]) && !is_white_space(s.last())
    &&& !s.contains('\n')
}

/// A line is read as a name and a value: the name ends at the first equals sign, the value at the
/// end of the line, and white space round them does not count. Values may hold equals signs.
pub proof fn law_lines_are_names_and_values(
    a: Seq<char>,
    name: Seq<char>,
    value: Seq<char>,
    b: Seq<char>,
)
    requires
        is_neat(name),
        is_neat(value),
        name[0] != '#',
        !name.contains('='),
        forall|i: int| 0 <= i < a.len() ==> is_white_space(#[trigger] a[i]),
        forall|i: int| 0 <= i < b.len() ==> is_white_space(#[trigger] b[i]),
    ensures
        line_of(a + name + seq!['='] + value + b) == LineView::Setting(name, value),
{
    let line = name + seq!['='] + value;
    lemma_trim_round(a, line, b);
    assert(a + name + seq!['='] + value + b =~= a + line + b);
    assert(line[0] == name[0] && line.last() == value.last());
    assert forall|j: int| 0 <= j < name.len() implies line[j] != '=' by {
        assert(line[j] == name[j]);
        assert(name.contains(name[j]));
    }
    lemma_find_is(line, '=', name.len() as int);
    assert(line.take(name.len() as int) =~= name);
    assert(line.skip(name.len() as int + 1) =~= value);
    lemma_trimmed(name);
    lemma_trimmed(value);
}

/// A file with the five settings is accepted, if the names are good, the path of the key is
/// absolute, and the listener is a good one. What it says is what was written, with the names in
/// lower case.
pub proof fn law_good_files_are_accepted(
    domain: Seq<char>,
    selector: Seq<char>,
    private_key: Seq<char>,
    listen: Seq<char>,
    require_fips: bool,
    tcp: Option<TcpAddress>,
)
    requires
        is_neat(domain) && is_dns_name(dns_form(domain)),
        is_neat(selector) && is_dns_name(dns_form(selector)),
        is_neat(private_key) && private_key[0] == '/',
        is_neat(listen) && listen_of(listen, tcp) is Ok,
    ensures
        settings_of(
            join(
                seq![
                    "domain="@ + domain,
                    "selector="@ + selector,
                    "private_key="@ + private_key,
                    "listen="@ + listen,
                    if require_fips {
                        "require_fips=true"@
                    } else {
                        "require_fips=false"@
                    },
                ],
                seq!['\n'],
            ),
            tcp,
        ) == Ok::<SettingsView, Seq<char>>(
            SettingsView {
                domain: dns_form(domain),
                selector: dns_form(selector),
                private_key,
                listen: listen_of(listen, tcp)->Ok_0,
                require_fips,
            },
        ),
{
    let flag = if require_fips {
        "true"@
    } else {
        "false"@
    };
    let l1 = "domain="@ + domain;
    let l2 = "selector="@ + selector;
    let l3 = "private_key="@ + private_key;
    let l4 = "listen="@ + listen;
    let l5 = if require_fips {
        "require_fips=true"@
    } else {
        "require_fips=false"@
    };
    let raws = seq![l1, l2, l3, l4, l5];
    lemma_names();
    lemma_flag(require_fips);
    lemma_plain_line("domain"@, domain);
    lemma_plain_line("selector"@, selector);
    lemma_plain_line("private_key"@, private_key);
    lemma_plain_line("listen"@, listen);
    lemma_plain_line("require_fips"@, flag);
    assert forall|i: int| 0 <= i < raws.len() implies !(#[trigger] raws[i]).contains('\n') by {
        assert(!l1.contains('\n') && !l2.contains('\n') && !l3.contains('\n') && !l4.contains(
            '\n',
        ) && !l5.contains('\n'));
    }
    lemma_split_join(raws, '\n');
    assert(l1 =~= "domain"@ + seq!['='] + domain);
    assert(l2 =~= "selector"@ + seq!['='] + selector);
    assert(l3 =~= "private_key"@ + seq!['='] + private_key);
    assert(l4 =~= "listen"@ + seq!['='] + listen);
    assert(l5 =~= "require_fips"@ + seq!['='] + flag);
    lemma_five_lines(raws, domain, selector, private_key, listen, flag, tcp);
}

proof fn lemma_five_lines(
    raws: Seq<Seq<char>>,
    domain: Seq<char>,
    selector: Seq<char>,
    private_key: Seq<char>,
    listen: Seq<char>,
    flag: Seq<char>,
    tcp: Option<TcpAddress>,
)
    requires
        raws.len() == 5,
        line_of(raws[0]) == LineView::Setting("domain"@, domain),
        line_of(raws[1]) == LineView::Setting("selector"@, selector),
        line_of(raws[2]) == LineView::Setting("private_key"@, private_key),
        line_of(raws[3]) == LineView::Setting("listen"@, listen),
        line_of(raws[4]) == LineView::Setting("require_fips"@, flag),
        domain.len() > 0 && is_dns_name(dns_form(domain)),
        selector.len() > 0 && is_dns_name(dns_form(selector)),
        private_key.len() > 0,
        listen.len() > 0 && listen_of(listen, tcp) is Ok,
        flag.len() > 0 && (flag == "true"@ || flag == "false"@),
        "true"@ != "false"@,
    ensures
        with_lines(raws, tcp) == Ok::<DraftView, Seq<char>>(
            DraftView {
                domain: Some(dns_form(domain)),
                selector: Some(dns_form(selector)),
                private_key: Some(private_key),
                listen: Some(listen_of(listen, tcp)->Ok_0),
                require_fips: Some(flag == "true"@),
            },
        ),
{
    lemma_names();
    let d0 = empty_draft();
    let d1 = DraftView { domain: Some(dns_form(domain)), ..d0 };
    let d2 = DraftView { selector: Some(dns_form(selector)), ..d1 };
    let d3 = DraftView { private_key: Some(private_key), ..d2 };
    let d4 = DraftView { listen: Some(listen_of(listen, tcp)->Ok_0), ..d3 };
    assert(raws.take(5) =~= raws);
    assert(raws.take(5).drop_last() =~= raws.take(4));
    assert(raws.take(4).drop_last() =~= raws.take(3));
    assert(raws.take(3).drop_last() =~= raws.take(2));
    assert(raws.take(2).drop_last() =~= raws.take(1));
    assert(raws.take(1).drop_last() =~= Seq::empty());
    assert(with_lines(Seq::<Seq<char>>::empty(), tcp) == Ok::<DraftView, Seq<char>>(d0));
    assert(with_line(d0, 1, raws[0], tcp) == Ok::<DraftView, Seq<char>>(d1));
    assert(with_lines(raws.take(1), tcp) == Ok::<DraftView, Seq<char>>(d1));
    assert(with_line(d1, 2, raws[1], tcp) == Ok::<DraftView, Seq<char>>(d2));
    assert(with_lines(raws.take(2), tcp) == Ok::<DraftView, Seq<char>>(d2));
    assert(with_line(d2, 3, raws[2], tcp) == Ok::<DraftView, Seq<char>>(d3));
    assert(with_lines(raws.take(3), tcp) == Ok::<DraftView, Seq<char>>(d3));
    assert(with_line(d3, 4, raws[3], tcp) == Ok::<DraftView, Seq<char>>(d4));
    assert(with_lines(raws.take(4), tcp) == Ok::<DraftView, Seq<char>>(d4));
}

proof fn lemma_plain_line(name: Seq<char>, value: Seq<char>)
    requires
        is_neat(name),
        is_neat(value),
        name[0] != '#',
        !name.contains('='),
    ensures
        line_of(name + seq!['='] + value) == LineView::Setting(name, value),
        !(name + seq!['='] + value).contains('\n'),
{
    let nothing = Seq::<char>::empty();
    let line = name + seq!['='] + value;
    law_lines_are_names_and_values(nothing, name, value, nothing);
    assert(nothing + name + seq!['='] + value + nothing =~= line);
    if line.contains('\n') {
        let k = choose|k: int| 0 <= k < line.len() && line[k] == '\n';
        if k < name.len() {
            assert(name.contains(name[k]));
        } else {
            assert(value.contains(value[k - name.len() - 1]));
        }
    }
}

proof fn lemma_names()
    ensures
        is_neat("domain"@) && "domain"@[0] == 'd' && !"domain"@.contains('='),
        is_neat("selector"@) && "selector"@[0] == 's' && !"selector"@.contains('='),
        is_neat("private_key"@) && "private_key"@[0] == 'p' && !"private_key"@.contains('='),
        is_neat("listen"@) && "listen"@[0] == 'l' && !"listen"@.contains('='),
        is_neat("require_fips"@) && "require_fips"@[0] == 'r' && !"require_fips"@.contains('='),
        "domain="@ == "domain"@ + seq!['='],
        "selector="@ == "selector"@ + seq!['='],
        "private_key="@ == "private_key"@ + seq!['='],
        "listen="@ == "listen"@ + seq!['='],
{
    reveal_strlit("domain");
    reveal_strlit("selector");
    reveal_strlit("private_key");
    reveal_strlit("listen");
    reveal_strlit("require_fips");
    reveal_strlit("domain=");
    reveal_strlit("selector=");
    reveal_strlit("private_key=");
    reveal_strlit("listen=");
    assert("domain="@ =~= "domain"@ + seq!['=']);
    assert("selector="@ =~= "selector"@ + seq!['=']);
    assert("private_key="@ =~= "private_key"@ + seq!['=']);
    assert("listen="@ =~= "listen"@ + seq!['=']);
}

proof fn lemma_flag(require_fips: bool)
    ensures
        is_neat("true"@) && is_neat("false"@) && "true"@ != "false"@,
        "require_fips=true"@ == "require_fips"@ + seq!['='] + "true"@,
        "require_fips=false"@ == "require_fips"@ + seq!['='] + "false"@,
{
    reveal_strlit("true");
    reveal_strlit("false");
    reveal_strlit("require_fips");
    reveal_strlit("require_fips=true");
    reveal_strlit("require_fips=false");
    assert("true"@[0] != "false"@[0]);
    assert("require_fips=true"@ =~= "require_fips"@ + seq!['='] + "true"@);
    assert("require_fips=false"@ =~= "require_fips"@ + seq!['='] + "false"@);
}

/// Settings are complete if and only if the four that are needed are there and the path of the key
/// is absolute. They are taken as they are.
pub proof fn law_complete_settings_are_taken(draft: DraftView)
    ensures
        match completed(draft) {
            Ok(settings) => {
                &&& draft.domain == Some(settings.domain)
                &&& draft.selector == Some(settings.selector)
                &&& draft.private_key == Some(settings.private_key)
                &&& settings.private_key.len() > 0 && settings.private_key.first() == '/'
                &&& draft.listen == Some(settings.listen)
                &&& settings.require_fips <==> draft.require_fips != Some(false)
            },
            Err(_) => draft.domain is None || draft.selector is None || draft.private_key is None
                || draft.listen is None || draft.private_key->0.len() == 0
                || draft.private_key->0.first() != '/',
        },
{
}

/// A line without an equals sign, without a value, with a name that is not one of the five, or with
/// a name that was set before is refused.
pub proof fn law_wrong_lines_are_refused(
    draft: DraftView,
    number: nat,
    raw: Seq<char>,
    tcp: Option<TcpAddress>,
)
    ensures
        line_of(raw) is NoEquals ==> with_line(draft, number, raw, tcp) is Err,
        line_of(raw) matches LineView::Setting(name, value) ==> {
            let known = name == "domain"@ || name == "selector"@ || name == "private_key"@ || name
                == "listen"@ || name == "require_fips"@;
            let again = name == "domain"@ && draft.domain is Some || name == "selector"@
                && draft.selector is Some || name == "private_key"@ && draft.private_key is Some
                || name == "listen"@ && draft.listen is Some || name == "require_fips"@
                && draft.require_fips is Some;
            !known || again || value.len() == 0 ==> with_line(draft, number, raw, tcp) is Err
        },
{
}

/// The listener that a file wants is that of its first `listen` line.
pub proof fn law_first_listen_line_counts(
    before: Seq<Seq<char>>,
    line: Seq<char>,
    value: Seq<char>,
    after: Seq<Seq<char>>,
)
    requires
        forall|i: int|
            0 <= i < before.len() ==> !(line_of(#[trigger] before[i]) matches LineView::Setting(
                name,
                _,
            ) && name == "listen"@),
        line_of(line) == LineView::Setting("listen"@, value),
    ensures
        listen_value(before.push(line) + after) == Some(value),
    decreases before.len(),
{
    let all = before.push(line) + after;
    if before.len() == 0 {
        assert(all[0] == line);
    } else {
        let rest = before.drop_first();
        assert forall|i: int| 0 <= i < rest.len() implies !(line_of(
            #[trigger] rest[i],
        ) matches LineView::Setting(name, _) && name == "listen"@) by {
            assert(rest[i] == before[i + 1]);
        }
        law_first_listen_line_counts(rest, line, value, after);
        assert(all[0] == before[0]);
        assert(all.drop_first() =~= rest.push(line) + after);
    }
}

} // verus!
