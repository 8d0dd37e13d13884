//! The command line.

use vstd::prelude::*;

use crate::keygen::GenerateOptions;
use crate::text::{chars_of, concat2, decimal, is_digit, is_text};

verus! {

/// Where the configuration is, unless the command line says otherwise.
pub const DEFAULT_CONFIG: &'static str = "/etc/dkim-lite/dkim-lite.conf";

pub const USAGE: &'static str = "Usage:
  dkim-lite [--config PATH] [--check-config]
  dkim-lite generate-key --domain DOMAIN --selector SELECTOR --private-key PATH [--bits 2048|3072|4096] [--require-fips true|false]
  dkim-lite --version
";

pub enum Command {
    Serve { config_path: String, check_only: bool },
    GenerateKey(GenerateOptions),
    Version,
    Help,
}

pub struct OptionsView {
    pub domain: Seq<char>,
    pub selector: Seq<char>,
    pub private_key: Seq<char>,
    pub bits: u32,
    pub require_fips: bool,
}

pub enum CommandView {
    Serve { config_path: Seq<char>, check_only: bool },
    GenerateKey(OptionsView),
    Version,
    Help,
}

impl View for Command {
    type V = CommandView;

    open spec fn view(&self) -> CommandView {
        match self {
            Command::Serve { config_path, check_only } => CommandView::Serve {
                config_path: config_path@,
                check_only: *check_only,
            },
            Command::GenerateKey(options) => CommandView::GenerateKey(
                OptionsView {
                    domain: options.domain@,
                    selector: options.selector@,
                    private_key: options.private_key@,
                    bits: options.bits,
                    require_fips: options.require_fips,
                },
            ),
            Command::Version => CommandView::Version,
            Command::Help => CommandView::Help,
        }
    }
}

pub open spec fn command_result(r: Result<Command, String>) -> Result<CommandView, Seq<char>> {
    match r {
        Ok(command) => Ok(command@),
        Err(error) => Err(error@),
    }
}

pub open spec fn texts(args: Seq<String>) -> Seq<Seq<char>> {
    Seq::new(args.len(), |i: int| args[i]@)
}

fn same(a: &str, b: &str) -> (r: bool)
    ensures
        r == (a@ == b@),
{
    let chars = chars_of(a);
    is_text(chars.as_slice(), b)
}

fn copied(text: &String) -> (r: String)
    ensures
        r@ == text@,
{
    text.as_str().to_owned()
}

// Numbers.

/// The number that decimal digits write.
pub open spec fn number(digits: Seq<char>) -> nat
    decreases digits.len(),
{
    if digits.len() == 0 {
        0
    } else {
        number(digits.drop_last()) * 10 + (digits.last() as u32 - '0' as u32) as nat
    }
}

/// A text without a plus sign at its start.
pub open spec fn unsigned_part(text: Seq<char>) -> Seq<char> {
    if text.len() > 0 && text[0] == '+' {
        text.skip(1)
    } else {
        text
    }
}

/// The number that a text writes: decimal digits, perhaps with a plus sign before them, and not
/// too large.
pub open spec fn u32_of(text: Seq<char>) -> Option<u32> {
    let digits = unsigned_part(text);
    if digits.len() > 0 && (forall|i: int| 0 <= i < digits.len() ==> is_digit(#[trigger] digits[i]))
        && number(digits) <= u32::MAX {
        Some(number(digits) as u32)
    } else {
        None
    }
}

/// Reads a number.
pub fn parse_u32(text: &str) -> (r: Option<u32>)
    ensures
        r == u32_of(text@),
{
    let chars = chars_of(text);
    let len: usize = chars.len();
    let start: usize = if len > 0 && chars[0] == '+' {
        1
    } else {
        0
    };
    let ghost digits = chars@.skip(start as int);
    assert(chars@.skip(0) =~= chars@);
    if start == len {
        return None;
    }
    let mut value: u64 = 0;
    let mut too_large: bool = false;
    let mut i: usize = start;
    assert(digits.take(0) =~= Seq::empty());
    while i < len
        invariant
            start <= i <= len,
            len == chars@.len(),
            digits == chars@.skip(start as int),
            digits == unsigned_part(text@),
            forall|j: int| 0 <= j < i - start ==> is_digit(#[trigger] digits[j]),
            too_large ==> number(digits.take(i - start)) > u32::MAX,
            !too_large ==> value == number(digits.take(i - start)) && value <= u32::MAX,
        decreases len - i,
    {
        let c = chars[i];
        assert(digits[i - start] == c);
        if !(c >= '0' && c <= '9') {
            return None;
        }
        assert(digits.take(i + 1 - start).drop_last() =~= digits.take(i - start));
        if !too_large {
            value = value * 10 + (c as u32 - '0' as u32) as u64;
            if value > u32::MAX as u64 {
                too_large = true;
            }
        }
        i += 1;
    }
    assert(digits.take(len - start) =~= digits);
    if too_large {
        None
    } else {
        Some(value as u32)
    }
}

// The service.

/// The command that the arguments from `index` on give, after those before gave `config` and
/// `check`.
pub open spec fn serve_command(
    args: Seq<Seq<char>>,
    index: nat,
    config: Option<Seq<char>>,
    check: bool,
) -> Result<CommandView, Seq<char>>
    decreases args.len() - index,
{
    if index >= args.len() {
        Ok(
            CommandView::Serve {
                config_path: match config {
                    Some(path) => path,
                    None => DEFAULT_CONFIG@,
                },
                check_only: check,
            },
        )
    } else {
        let arg = args[index as int];
        if arg == "--version"@ && args.len() == 2 {
            Ok(CommandView::Version)
        } else if (arg == "--help"@ || arg == "-h"@) && args.len() == 2 {
            Ok(CommandView::Help)
        } else if arg == "--check-config"@ {
            if check {
                Err("duplicate --check-config"@)
            } else {
                serve_command(args, index + 1, config, true)
            }
        } else if arg == "--config"@ {
            if config is Some {
                Err("duplicate --config"@)
            } else if index + 1 >= args.len() {
                Err("--config requires a path"@)
            } else {
                serve_command(args, index + 2, Some(args[index + 1int]), check)
            }
        } else {
            Err("unknown argument: "@ + arg)
        }
    }
}

/// The command that the arguments give, the first of which names the program.
pub open spec fn command_of(args: Seq<Seq<char>>) -> Result<CommandView, Seq<char>> {
    if args.len() > 1 && args[1] == "generate-key"@ {
        generate_command(args.skip(2), 0, no_options())
    } else {
        serve_command(args, 1, None, false)
    }
}

/// Reads the arguments, the first of which names the program.
pub fn parse_args(args: &[String]) -> (r: Result<Command, String>)
    ensures
        command_result(r) == command_of(texts(args@)),
{
    let ghost all = texts(args@);
    let len: usize = args.len();
    if len > 1 && same(args[1].as_str(), "generate-key") {
        let rest = vstd::slice::slice_subrange(args, 2, len);
        assert(texts(rest@) =~= all.skip(2));
        return parse_generate_args(rest);
    }
    let mut config: Option<String> = None;
    let mut check: bool = false;
    let mut index: usize = 1;
    while index < len
        invariant
            len == args@.len(),
            all == texts(args@),
            command_of(all) == serve_command(all, index as nat, optional(config), check),
        decreases len - index,
    {
        let arg = args[index].as_str();
        assert(arg@ == all[index as int]);
        if len == 2 && same(arg, "--version") {
            return Ok(Command::Version);
        }
        if len == 2 && (same(arg, "--help") || same(arg, "-h")) {
            return Ok(Command::Help);
        }
        if same(arg, "--check-config") {
            if check {
                return Err("duplicate --check-config".to_owned());
            }
            check = true;
        } else if same(arg, "--config") {
            if config.is_some() {
                return Err("duplicate --config".to_owned());
            }
            if index + 1 >= len {
                return Err("--config requires a path".to_owned());
            }
            index += 1;
            config = Some(copied(&args[index]));
        } else {
            return Err(concat2("unknown argument: ", arg));
        }
        index += 1;
    }
    let config_path = match config {
        Some(path) => path,
        None => DEFAULT_CONFIG.to_owned(),
    };
    Ok(Command::Serve { config_path, check_only: check })
}

pub open spec fn optional(text: Option<String>) -> Option<Seq<char>> {
    match text {
        Some(text) => Some(text@),
        None => None,
    }
}

// Making a key.

/// The options that were given so far.
pub struct GivenView {
    pub domain: Option<Seq<char>>,
    pub selector: Option<Seq<char>>,
    pub private_key: Option<Seq<char>>,
    pub bits: Option<u32>,
    pub require_fips: Option<bool>,
}

pub open spec fn no_options() -> GivenView {
    GivenView { domain: None, selector: None, private_key: None, bits: None, require_fips: None }
}

impl GivenView {
    /// Whether an option was given.
    pub open spec fn has(self, option: Seq<char>) -> bool {
        ||| option == "--domain"@ && self.domain is Some
        ||| option == "--selector"@ && self.selector is Some
        ||| option == "--private-key"@ && self.private_key is Some
        ||| option == "--bits"@ && self.bits is Some
        ||| option == "--require-fips"@ && self.require_fips is Some
    }

    /// The options with one more.
    pub open spec fn with(self, option: Seq<char>, value: Seq<char>) -> Result<
        GivenView,
        Seq<char>,
    > {
        if self.has(option) {
            Err("duplicate "@ + option)
        } else if option == "--domain"@ {
            Ok(GivenView { domain: Some(value), ..self })
        } else if option == "--selector"@ {
            Ok(GivenView { selector: Some(value), ..self })
        } else if option == "--private-key"@ {
            Ok(GivenView { private_key: Some(value), ..self })
        } else if option == "--bits"@ {
            match u32_of(value) {
                Some(bits) => Ok(GivenView { bits: Some(bits), ..self }),
                None => Err("--bits requires an integer"@),
            }
        } else if option == "--require-fips"@ {
            if value == "true"@ {
                Ok(GivenView { require_fips: Some(true), ..self })
            } else if value == "false"@ {
                Ok(GivenView { require_fips: Some(false), ..self })
            } else {
                Err("--require-fips must be true or false"@)
            }
        } else {
            Err("unknown generate-key argument: "@ + option)
        }
    }

    /// The options with those that were left out.
    pub open spec fn completed(self) -> Result<CommandView, Seq<char>> {
        match (self.domain, self.selector, self.private_key) {
            (None, _, _) => Err("generate-key requires --domain"@),
            (_, None, _) => Err("generate-key requires --selector"@),
            (_, _, None) => Err("generate-key requires --private-key"@),
            (Some(domain), Some(selector), Some(private_key)) => Ok(
                CommandView::GenerateKey(
                    OptionsView {
                        domain,
                        selector,
                        private_key,
                        bits: match self.bits {
                            Some(bits) => bits,
                            None => 2048,
                        },
                        require_fips: match self.require_fips {
                            Some(require_fips) => require_fips,
                            None => true,
                        },
                    },
                ),
            ),
        }
    }
}

/// The command that the arguments from `index` on give, after those before gave `given`.
pub open spec fn generate_command(args: Seq<Seq<char>>, index: nat, given: GivenView) -> Result<
    CommandView,
    Seq<char>,
>
    decreases args.len() - index,
{
    if index >= args.len() {
        given.completed()
    } else {
        let option = args[index as int];
        if option == "--help"@ || option == "-h"@ {
            Ok(CommandView::Help)
        } else if index + 1 >= args.len() {
            Err(option + " requires a value"@)
        } else {
            match given.with(option, args[index + 1int]) {
                Ok(given) => generate_command(args, index + 2, given),
                Err(error) => Err(error),
            }
        }
    }
}

struct Given {
    domain: Option<String>,
    selector: Option<String>,
    private_key: Option<String>,
    bits: Option<u32>,
    require_fips: Option<bool>,
}

impl View for Given {
    type V = GivenView;

    closed spec fn view(&self) -> GivenView {
        GivenView {
            domain: optional(self.domain),
            selector: optional(self.selector),
            private_key: optional(self.private_key),
            bits: self.bits,
            require_fips: self.require_fips,
        }
    }
}

impl Given {
    fn has(&self, option: &str) -> (r: bool)
        ensures
            r == self@.has(option@),
    {
        (self.domain.is_some() && same(option, "--domain")) || (self.selector.is_some() && same(
            option,
            "--selector",
        )) || (self.private_key.is_some() && same(option, "--private-key")) || (
        self.bits.is_some() && same(option, "--bits")) || (self.require_fips.is_some() && same(
            option,
            "--require-fips",
        ))
    }

    fn set(&mut self, option: &str, value: &String) -> (r: Result<(), String>)
        ensures
            match r {
                Ok(()) => old(self)@.with(option@, value@) == Ok::<GivenView, Seq<char>>(
                    final(self)@,
                ),
                Err(error) => old(self)@.with(option@, value@) == Err::<GivenView, Seq<char>>(
                    error@,
                ),
            },
    {
        if self.has(option) {
            return Err(concat2("duplicate ", option));
        }
        if same(option, "--domain") {
            self.domain = Some(copied(value));
        } else if same(option, "--selector") {
            self.selector = Some(copied(value));
        } else if same(option, "--private-key") {
            self.private_key = Some(copied(value));
        } else if same(option, "--bits") {
            match parse_u32(value.as_str()) {
                Some(bits) => self.bits = Some(bits),
                None => return Err("--bits requires an integer".to_owned()),
            }
        } else if same(option, "--require-fips") {
            if same(value.as_str(), "true") {
                self.require_fips = Some(true);
            } else if same(value.as_str(), "false") {
                self.require_fips = Some(false);
            } else {
                return Err("--require-fips must be true or false".to_owned());
            }
        } else {
            return Err(concat2("unknown generate-key argument: ", option));
        }
        Ok(())
    }

    fn complete(self) -> (r: Result<Command, String>)
        ensures
            command_result(r) == self@.completed(),
    {
        let domain = match self.domain {
            Some(domain) => domain,
            None => return Err("generate-key requires --domain".to_owned()),
        };
        let selector = match self.selector {
            Some(selector) => selector,
            None => return Err("generate-key requires --selector".to_owned()),
        };
        let private_key = match self.private_key {
            Some(private_key) => private_key,
            None => return Err("generate-key requires --private-key".to_owned()),
        };
        let bits: u32 = match self.bits {
            Some(bits) => bits,
            None => 2048,
        };
        let require_fips = match self.require_fips {
            Some(require_fips) => require_fips,
            None => true,
        };
        Ok(
            Command::GenerateKey(
                GenerateOptions { domain, selector, private_key, bits, require_fips },
            ),
        )
    }
}

/// Reads the arguments after `generate-key`.
pub fn parse_generate_args(args: &[String]) -> (r: Result<Command, String>)
    ensures
        command_result(r) == generate_command(texts(args@), 0, no_options()),
{
    let ghost all = texts(args@);
    let mut given = Given {
        domain: None,
        selector: None,
        private_key: None,
        bits: None,
        require_fips: None,
    };
    let len: usize = args.len();
    let mut index: usize = 0;
    while index < len
        invariant
            len == args@.len(),
            all == texts(args@),
            generate_command(all, 0, no_options()) == generate_command(all, index as nat, given@),
        decreases len - index,
    {
        let option = args[index].as_str();
        assert(option@ == all[index as int]);
        if same(option, "--help") || same(option, "-h") {
            return Ok(Command::Help);
        }
        if index + 1 >= len {
            return Err(concat2(option, " requires a value"));
        }
        let value = &args[index + 1];
        assert(value@ == all[index + 1]);
        match given.set(option, value) {
            Ok(()) => {},
            Err(error) => return Err(error),
        }
        index += 2;
    }
    given.complete()
}

// What holds of options.

/// An option that is given twice is refused.
pub proof fn law_options_are_given_once(
    given: GivenView,
    option: Seq<char>,
    value: Seq<char>,
    again: Seq<char>,
)
    ensures
        given.with(option, value) matches Ok(more) ==> more.with(option, again) == Err::<
            GivenView,
            Seq<char>,
        >("duplicate "@ + option),
{
}

/// The order of options makes no difference.
pub proof fn law_options_come_in_any_order(
    given: GivenView,
    a: Seq<char>,
    x: Seq<char>,
    b: Seq<char>,
    y: Seq<char>,
)
    requires
        a != b,
    ensures
        given.with(a, x) matches Ok(first) ==> (first.with(b, y) matches Ok(both) ==> (given.with(
            b,
            y,
        ) matches Ok(second) && second.with(a, x) == Ok::<GivenView, Seq<char>>(both))),
{
    reveal_strlit("--domain");
    reveal_strlit("--selector");
    reveal_strlit("--private-key");
    reveal_strlit("--bits");
    reveal_strlit("--require-fips");
}

proof fn lemma_number_of_decimal(n: nat)
    ensures
        decimal(n).len() > 0,
        forall|i: int| 0 <= i < decimal(n).len() ==> is_digit(#[trigger] decimal(n)[i]),
        number(decimal(n)) == n,
    decreases n,
{
    if n < 10 {
        assert(decimal(n).drop_last() =~= Seq::empty());
        assert(number(Seq::<char>::empty()) == 0);
    } else {
        lemma_number_of_decimal(n / 10);
        assert(decimal(n).drop_last() =~= decimal(n / 10));
    }
}

/// A number that was written in decimal is read again.
pub proof fn law_numbers_are_read_again(n: u32)
    ensures
        u32_of(decimal(n as nat)) == Some(n),
{
    lemma_number_of_decimal(n as nat);
    let text = decimal(n as nat);
    assert(is_digit(text[0]));
}

proof fn lemma_options_differ()
    ensures
        ({
            let d = "--domain"@;
            let s = "--selector"@;
            let k = "--private-key"@;
            let b = "--bits"@;
            let f = "--require-fips"@;
            let h = "--help"@;
            &&& d != s && d != k && d != b && d != f && d != h
            &&& s != k && s != b && s != f && s != h
            &&& k != b && k != f && k != h
            &&& b != f && b != h
            &&& f != h
            &&& d != "-h"@ && s != "-h"@ && k != "-h"@ && b != "-h"@ && f != "-h"@
        }),
{
    reveal_strlit("--domain");
    reveal_strlit("--selector");
    reveal_strlit("--private-key");
    reveal_strlit("--bits");
    reveal_strlit("--require-fips");
    reveal_strlit("--help");
    reveal_strlit("-h");
    assert("--domain"@[2] == 'd' && "--selector"@[2] == 's' && "--private-key"@[2] == 'p'
        && "--bits"@[2] == 'b' && "--require-fips"@[2] == 'r' && "--help"@[2] == 'h');
    assert("-h"@.len() == 2);
}

/// Options are taken as they are given. With only the three that are needed the key has 2048 bits
/// and FIPS mode is required.
pub proof fn law_given_options_are_taken(
    domain: Seq<char>,
    selector: Seq<char>,
    private_key: Seq<char>,
    bits: u32,
    require_fips: bool,
)
    ensures
        generate_command(
            seq!["--domain"@, domain, "--selector"@, selector, "--private-key"@, private_key],
            0,
            no_options(),
        ) == Ok::<CommandView, Seq<char>>(
            CommandView::GenerateKey(
                OptionsView { domain, selector, private_key, bits: 2048, require_fips: true },
            ),
        ),
        generate_command(
            seq![
                "--domain"@,
                domain,
                "--selector"@,
                selector,
                "--private-key"@,
                private_key,
                "--bits"@,
                decimal(bits as nat),
                "--require-fips"@,
                if require_fips {
                    "true"@
                } else {
                    "false"@
                },
            ],
            0,
            no_options(),
        ) == Ok::<CommandView, Seq<char>>(
            CommandView::GenerateKey(
                OptionsView { domain, selector, private_key, bits, require_fips },
            ),
        ),
{
    lemma_options_differ();
    law_numbers_are_read_again(bits);
    reveal_strlit("true");
    reveal_strlit("false");
    assert("true"@[0] != "false"@[0]);
    let flag = if require_fips {
        "true"@
    } else {
        "false"@
    };
    let few = seq!["--domain"@, domain, "--selector"@, selector, "--private-key"@, private_key];
    let all = seq![
        "--domain"@,
        domain,
        "--selector"@,
        selector,
        "--private-key"@,
        private_key,
        "--bits"@,
        decimal(bits as nat),
        "--require-fips"@,
        flag,
    ];
    let g0 = no_options();
    let g1 = GivenView { domain: Some(domain), ..g0 };
    let g2 = GivenView { selector: Some(selector), ..g1 };
    let g3 = GivenView { private_key: Some(private_key), ..g2 };
    let g4 = GivenView { bits: Some(bits), ..g3 };
    let g5 = GivenView { require_fips: Some(require_fips), ..g4 };
    assert(generate_command(few, 6, g3) == g3.completed());
    assert(generate_command(few, 4, g2) == generate_command(few, 6, g3));
    assert(generate_command(few, 2, g1) == generate_command(few, 4, g2));
    assert(generate_command(few, 0, g0) == generate_command(few, 2, g1));
    assert(generate_command(all, 10, g5) == g5.completed());
    assert(generate_command(all, 8, g4) == generate_command(all, 10, g5));
    assert(generate_command(all, 6, g3) == generate_command(all, 8, g4));
    assert(generate_command(all, 4, g2) == generate_command(all, 6, g3));
    assert(generate_command(all, 2, g1) == generate_command(all, 4, g2));
    assert(generate_command(all, 0, g0) == generate_command(all, 2, g1));
}

/// The service is started with the configuration that is given, else with the usual one, and only
/// checks it where that is asked for. Its version and its usage are told by themselves.
pub proof fn law_services_are_started_as_asked(program: Seq<char>, path: Seq<char>)
    ensures
        command_of(seq![program]) == Ok::<CommandView, Seq<char>>(
            CommandView::Serve {
                config_path: "/etc/dkim-lite/dkim-lite.conf"@,
                check_only: false,
            },
        ),
        command_of(seq![program, "--config"@, path]) == Ok::<CommandView, Seq<char>>(
            CommandView::Serve { config_path: path, check_only: false },
        ),
        command_of(seq![program, "--check-config"@]) == Ok::<CommandView, Seq<char>>(
            CommandView::Serve {
                config_path: "/etc/dkim-lite/dkim-lite.conf"@,
                check_only: true,
            },
        ),
        command_of(seq![program, "--config"@, path, "--check-config"@]) == Ok::<
            CommandView,
            Seq<char>,
        >(CommandView::Serve { config_path: path, check_only: true }),
        command_of(seq![program, "--check-config"@, "--config"@, path]) == Ok::<
            CommandView,
            Seq<char>,
        >(CommandView::Serve { config_path: path, check_only: true }),
        command_of(seq![program, "--version"@]) == Ok::<CommandView, Seq<char>>(
            CommandView::Version,
        ),
        command_of(seq![program, "--help"@]) == Ok::<CommandView, Seq<char>>(CommandView::Help),
        command_of(seq![program, "-h"@]) == Ok::<CommandView, Seq<char>>(CommandView::Help),
{
    reveal_strlit("--config");
    reveal_strlit("--check-config");
    reveal_strlit("--version");
    reveal_strlit("--help");
    reveal_strlit("-h");
    reveal_strlit("generate-key");
    assert("--config"@[3] == 'o' && "--check-config"@[3] == 'h');
    assert("--config"@[2] == 'c' && "--check-config"@[2] == 'c' && "--version"@[2] == 'v'
        && "--help"@[2] == 'h' && "-h"@.len() == 2 && "generate-key"@[0] == 'g' && "-h"@[0] == '-'
        && "--config"@[0] == '-' && "--check-config"@[0] == '-' && "--version"@[0] == '-'
        && "--help"@[0] == '-');
    reveal_with_fuel(serve_command, 4);
}

/// The arguments after `generate-key` are those of making a key.
pub proof fn law_generate_key_takes_the_rest(program: Seq<char>, rest: Seq<Seq<char>>)
    ensures
        command_of(seq![program, "generate-key"@] + rest) == generate_command(
            rest,
            0,
            no_options(),
        ),
{
    assert((seq![program, "generate-key"@] + rest).skip(2) =~= rest);
}

/// An option that is not one of the five is refused.
pub proof fn law_unknown_options_are_refused(
    given: GivenView,
    option: Seq<char>,
    value: Seq<char>,
)
    requires
        option != "--domain"@ && option != "--selector"@ && option != "--private-key"@ && option
            != "--bits"@ && option != "--require-fips"@,
    ensures
        given.with(option, value) == Err::<GivenView, Seq<char>>(
            "unknown generate-key argument: "@ + option,
        ),
{
}

/// Nothing is made up: what is needed and was not given is refused.
pub proof fn law_needed_options_are_asked_for(given: GivenView)
    ensures
        given.completed() is Ok <==> given.domain is Some && given.selector is Some
            && given.private_key is Some,
{
}

/// An argument of the service that is none of its options is refused.
pub proof fn law_unknown_arguments_are_refused(
    program: Seq<char>,
    arg: Seq<char>,
    rest: Seq<Seq<char>>,
)
    requires
        arg != "generate-key"@ && arg != "--version"@ && arg != "--help"@ && arg != "-h"@ && arg
            != "--check-config"@ && arg != "--config"@,
    ensures
        command_of(seq![program, arg] + rest) == Err::<CommandView, Seq<char>>(
            "unknown argument: "@ + arg,
        ),
{
    assert((seq![program, arg] + rest)[1] == arg);
}

/// Numbers are read in base ten, up to 4294967295, and from digits alone but for one plus sign.
pub proof fn law_numbers_are_decimal(digits: Seq<char>, c: char, text: Seq<char>)
    ensures
        number(Seq::empty()) == 0,
        '0' <= c <= '9' ==> number(digits.push(c)) == 10 * number(digits) + (c as u32 - 48),
        unsigned_part(text) == if text.len() > 0 && text[0] == '+' {
            text.skip(1)
        } else {
            text
        },
        u32_of(text) is Some <==> {
            &&& unsigned_part(text).len() > 0
            &&& forall|i: int|
                0 <= i < unsigned_part(text).len() ==> '0' <= #[trigger] unsigned_part(text)[i] <= '9'
            &&& number(unsigned_part(text)) <= 4_294_967_295
        },
        u32_of(text) matches Some(n) ==> n == number(unsigned_part(text)),
{
    assert(digits.push(c).drop_last() =~= digits);
    let part = unsigned_part(text);
    if u32_of(text) is Some {
        assert forall|i: int| 0 <= i < part.len() implies '0' <= #[trigger] part[i] <= '9' by {
            assert(is_digit(part[i]));
        }
    } else if forall|i: int| 0 <= i < part.len() ==> '0' <= #[trigger] part[i] <= '9' {
        assert forall|i: int| 0 <= i < part.len() implies is_digit(#[trigger] part[i]) by {}
    }
}

} // verus!
