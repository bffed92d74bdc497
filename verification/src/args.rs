//! The command line: `--host HOST`, `--port PORT`, `--dir DIR` (each also as
//! `-h`, `-p`, `-d`, or as `--host=HOST` and so on) and `--sort-dirs-first`.

use vstd::prelude::*;
use crate::decimal::{port_number, parse_port};
use crate::text::{same_text, text_starts_with};

verus! {

/// Where and what the server serves.
pub struct Config {
    pub host: String,
    pub port: u16,
    pub dir: String,
    pub sort_dirs_first: bool,
}

/// The settings of a `Config`, as texts.
pub struct Settings {
    pub host: Seq<char>,
    pub port: u16,
    pub dir: Seq<char>,
    pub sort_dirs_first: bool,
}

impl View for Config {
    type V = Settings;

    open spec fn view(&self) -> Settings {
        Settings { host: self.host@, port: self.port, dir: self.dir@, sort_dirs_first: self.sort_dirs_first }
    }
}

/// Why a command line is refused.
pub enum ArgError {
    /// An option that takes a value came last.
    MissingValue(String),
    /// A port that is not a 16-bit number; holds the text that is reported.
    InvalidPort(String),
    /// Something that is no option.
    UnknownArgument(String),
}

/// The reasons of an `ArgError`, as texts.
pub enum ArgFailure {
    MissingValue(Seq<char>),
    InvalidPort(Seq<char>),
    UnknownArgument(Seq<char>),
}

impl View for ArgError {
    type V = ArgFailure;

    open spec fn view(&self) -> ArgFailure {
        match self {
            ArgError::MissingValue(a) => ArgFailure::MissingValue(a@),
            ArgError::InvalidPort(a) => ArgFailure::InvalidPort(a@),
            ArgError::UnknownArgument(a) => ArgFailure::UnknownArgument(a@),
        }
    }
}

/// The settings when no option is given: every address, port 7878, the
/// current directory, names in plain order.
pub open spec fn default_settings() -> Settings {
    Settings { host: "0.0.0.0"@, port: 7878, dir: "."@, sort_dirs_first: false }
}

/// The outcome of reading `args` from position `i` on, with `cur` the
/// settings so far: each option sets its value, later ones win, and the
/// first bad argument stops the reading.
pub open spec fn parse_args_from(args: Seq<Seq<char>>, i: int, cur: Settings) -> Result<Settings, ArgFailure>
    decreases args.len() - i,
{
    if i < 0 || i >= args.len() {
        Ok(cur)
    } else {
        let a = args[i];
        if a == "--host"@ || a == "-h"@ {
            if i + 1 < args.len() {
                parse_args_from(args, i + 2, Settings { host: args[i + 1], ..cur })
            } else {
                Err(ArgFailure::MissingValue(a))
            }
        } else if a == "--port"@ || a == "-p"@ {
            if i + 1 < args.len() {
                match port_number(args[i + 1]) {
                    Some(p) => parse_args_from(args, i + 2, Settings { port: p, ..cur }),
                    None => Err(ArgFailure::InvalidPort(args[i + 1])),
                }
            } else {
                Err(ArgFailure::MissingValue(a))
            }
        } else if a == "--dir"@ || a == "-d"@ {
            if i + 1 < args.len() {
                parse_args_from(args, i + 2, Settings { dir: args[i + 1], ..cur })
            } else {
                Err(ArgFailure::MissingValue(a))
            }
        } else if "--host="@.is_prefix_of(a) {
            parse_args_from(args, i + 1, Settings { host: a.skip(7), ..cur })
        } else if "--port="@.is_prefix_of(a) {
            match port_number(a.skip(7)) {
                Some(p) => parse_args_from(args, i + 1, Settings { port: p, ..cur }),
                None => Err(ArgFailure::InvalidPort(a)),
            }
        } else if "--dir="@.is_prefix_of(a) {
            parse_args_from(args, i + 1, Settings { dir: a.skip(6), ..cur })
        } else if a == "--sort-dirs-first"@ {
            parse_args_from(args, i + 1, Settings { sort_dirs_first: true, ..cur })
        } else {
            Err(ArgFailure::UnknownArgument(a))
        }
    }
}

/// The texts of a vector of strings.
pub open spec fn texts(v: Seq<String>) -> Seq<Seq<char>> {
    v.map_values(|s: String| s@)
}

/// The outcome of reading the whole command line (the program name left out).
pub open spec fn parse_args_spec(args: Seq<Seq<char>>) -> Result<Settings, ArgFailure> {
    parse_args_from(args, 0, default_settings())
}

/// The lines that report a refused command line on standard error.
pub open spec fn error_report(e: ArgFailure) -> Seq<Seq<char>> {
    match e {
        ArgFailure::MissingValue(a) => seq!["Missing value for "@ + a],
        ArgFailure::InvalidPort(t) => seq!["Invalid port: "@ + t],
        ArgFailure::UnknownArgument(a) => seq![
            "Unknown argument: "@ + a,
            "Usage: ls_web [--host HOST] [--port PORT] [--dir DIR] [--sort-dirs-first]"@,
        ],
    }
}

fn prefixed(prefix: &str, text: &String) -> (r: String)
    ensures
        r@ == prefix@ + text@,
{
    let mut r = prefix.to_owned();
    r.append(text.as_str());
    r
}

/// The lines that report `e`, to be written to standard error.
pub fn report_lines(e: &ArgError) -> (lines: Vec<String>)
    ensures
        texts(lines@) == error_report(e@),
{
    let mut lines: Vec<String> = Vec::new();
    match e {
        ArgError::MissingValue(a) => {
            lines.push(prefixed("Missing value for ", a));
        },
        ArgError::InvalidPort(t) => {
            lines.push(prefixed("Invalid port: ", t));
        },
        ArgError::UnknownArgument(a) => {
            lines.push(prefixed("Unknown argument: ", a));
            lines.push("Usage: ls_web [--host HOST] [--port PORT] [--dir DIR] [--sort-dirs-first]".to_owned());
        },
    }
    assert(texts(lines@) =~= error_report(e@));
    lines
}

fn tail_text(a: &str, n: usize) -> (r: String)
    requires
        n <= a@.len(),
    ensures
        r@ == a@.skip(n as int),
{
    let cs = crate::text::chars_of(a);
    crate::text::string_from(crate::text::slice_of(&cs, n, cs.len()))
}

/// Reads the command line arguments (the program name left out).
pub fn parse_args(args: &Vec<String>) -> (r: Result<Config, ArgError>)
    ensures
        match r {
            Ok(c) => parse_args_spec(texts(args@)) == Ok::<Settings, ArgFailure>(c@),
            Err(e) => parse_args_spec(texts(args@)) == Err::<Settings, ArgFailure>(e@),
        },
{
    let ghost av = texts(args@);
    let mut cfg = Config {
        host: "0.0.0.0".to_owned(),
        port: 7878,
        dir: ".".to_owned(),
        sort_dirs_first: false,
    };
    let mut i: usize = 0;
    while i < args.len()
        invariant
            i <= args.len(),
            av == texts(args@),
            parse_args_spec(av) == parse_args_from(av, i as int, cfg@),
        decreases args.len() - i,
    {
        let a = args[i].as_str();
        assert(av[i as int] == a@);
        if same_text(a, "--host") || same_text(a, "-h") {
            if i + 1 < args.len() {
                cfg.host = args[i + 1].clone();
                i = i + 2;
            } else {
                return Err(ArgError::MissingValue(a.to_owned()));
            }
        } else if same_text(a, "--port") || same_text(a, "-p") {
            if i + 1 < args.len() {
                match parse_port(args[i + 1].as_str()) {
                    Some(p) => {
                        cfg.port = p;
                        i = i + 2;
                    },
                    None => {
                        return Err(ArgError::InvalidPort(args[i + 1].clone()));
                    },
                }
            } else {
                return Err(ArgError::MissingValue(a.to_owned()));
            }
        } else if same_text(a, "--dir") || same_text(a, "-d") {
            if i + 1 < args.len() {
                cfg.dir = args[i + 1].clone();
                i = i + 2;
            } else {
                return Err(ArgError::MissingValue(a.to_owned()));
            }
        } else if text_starts_with(a, "--host=") {
            proof {
                reveal_strlit("--host=");
            }
            cfg.host = tail_text(a, 7);
            i = i + 1;
        } else if text_starts_with(a, "--port=") {
            proof {
                reveal_strlit("--port=");
            }
            let rest = tail_text(a, 7);
            match parse_port(rest.as_str()) {
                Some(p) => {
                    cfg.port = p;
                    i = i + 1;
                },
                None => {
                    return Err(ArgError::InvalidPort(a.to_owned()));
                },
            }
        } else if text_starts_with(a, "--dir=") {
            proof {
                reveal_strlit("--dir=");
            }
            cfg.dir = tail_text(a, 6);
            i = i + 1;
        } else if same_text(a, "--sort-dirs-first") {
            cfg.sort_dirs_first = true;
            i = i + 1;
        } else {
            return Err(ArgError::UnknownArgument(a.to_owned()));
        }
    }
    Ok(cfg)
}

proof fn lemma_parse_append(args: Seq<Seq<char>>, ext: Seq<Seq<char>>, i: int, cur: Settings)
    requires
        0 <= i <= args.len(),
        parse_args_from(args, i, cur) is Ok,
    ensures
        parse_args_from(args + ext, i, cur) == parse_args_from(
            args + ext,
            args.len() as int,
            parse_args_from(args, i, cur)->Ok_0,
        ),
    decreases args.len() - i,
{
    let all = args + ext;
    if i < args.len() {
        assert(all[i] == args[i]);
        if i + 1 < args.len() {
            assert(all[i + 1] == args[i + 1]);
        }
        let a = args[i];
        if a == "--host"@ || a == "-h"@ {
            lemma_parse_append(args, ext, i + 2, Settings { host: args[i + 1], ..cur });
        } else if a == "--port"@ || a == "-p"@ {
            lemma_parse_append(args, ext, i + 2, Settings { port: port_number(args[i + 1])->Some_0, ..cur });
        } else if a == "--dir"@ || a == "-d"@ {
            lemma_parse_append(args, ext, i + 2, Settings { dir: args[i + 1], ..cur });
        } else if "--host="@.is_prefix_of(a) {
            lemma_parse_append(args, ext, i + 1, Settings { host: a.skip(7), ..cur });
        } else if "--port="@.is_prefix_of(a) {
            lemma_parse_append(args, ext, i + 1, Settings { port: port_number(a.skip(7))->Some_0, ..cur });
        } else if "--dir="@.is_prefix_of(a) {
            lemma_parse_append(args, ext, i + 1, Settings { dir: a.skip(6), ..cur });
        } else {
            lemma_parse_append(args, ext, i + 1, Settings { sort_dirs_first: true, ..cur });
        }
    }
}

/// A `--host` given after an accepted command line sets the host and leaves
/// the rest as it was: the last option wins.
pub proof fn lemma_later_host_wins(args: Seq<Seq<char>>, host: Seq<char>)
    requires
        parse_args_spec(args) is Ok,
    ensures
        parse_args_spec(args + seq!["--host"@, host]) == Ok::<Settings, ArgFailure>(
            Settings { host, ..parse_args_spec(args)->Ok_0 },
        ),
{
    let ext = seq!["--host"@, host];
    lemma_parse_append(args, ext, 0, default_settings());
    let all = args + ext;
    let s = parse_args_spec(args)->Ok_0;
    assert(all[args.len() as int] == "--host"@);
    assert(all[args.len() as int + 1] == host);
    assert(parse_args_from(all, args.len() as int + 2, Settings { host, ..s }) == Ok::<Settings, ArgFailure>(Settings { host, ..s }));
}

/// A `--dir` given after an accepted command line sets the directory and
/// leaves the rest as it was.
pub proof fn lemma_later_dir_wins(args: Seq<Seq<char>>, dir: Seq<char>)
    requires
        parse_args_spec(args) is Ok,
    ensures
        parse_args_spec(args + seq!["--dir"@, dir]) == Ok::<Settings, ArgFailure>(
            Settings { dir, ..parse_args_spec(args)->Ok_0 },
        ),
{
    let ext = seq!["--dir"@, dir];
    lemma_parse_append(args, ext, 0, default_settings());
    let all = args + ext;
    let s = parse_args_spec(args)->Ok_0;
    reveal_strlit("--dir");
    reveal_strlit("--host");
    reveal_strlit("-h");
    reveal_strlit("--port");
    reveal_strlit("-p");
    assert(all[args.len() as int] == "--dir"@);
    assert(all[args.len() as int + 1] == dir);
    assert("--dir"@ != "--host"@ && "--dir"@ != "-h"@ && "--dir"@ != "--port"@ && "--dir"@ != "-p"@) by {
        assert("--dir"@.len() != "--host"@.len());
        assert("--dir"@.len() != "--port"@.len());
        assert("--dir"@.len() != "-h"@.len());
        assert("--dir"@.len() != "-p"@.len());
    }
    assert(parse_args_from(all, args.len() as int + 2, Settings { dir, ..s }) == Ok::<Settings, ArgFailure>(Settings { dir, ..s }));
}

/// A valid `--port` given after an accepted command line sets the port and
/// leaves the rest as it was.
pub proof fn lemma_later_port_wins(args: Seq<Seq<char>>, port: Seq<char>)
    requires
        parse_args_spec(args) is Ok,
        port_number(port) is Some,
    ensures
        parse_args_spec(args + seq!["--port"@, port]) == Ok::<Settings, ArgFailure>(
            Settings { port: port_number(port)->Some_0, ..parse_args_spec(args)->Ok_0 },
        ),
{
    let ext = seq!["--port"@, port];
    lemma_parse_append(args, ext, 0, default_settings());
    let all = args + ext;
    let s = parse_args_spec(args)->Ok_0;
    let p = port_number(port)->Some_0;
    reveal_strlit("--host");
    reveal_strlit("-h");
    reveal_strlit("--port");
    assert(all[args.len() as int] == "--port"@);
    assert(all[args.len() as int + 1] == port);
    assert("--port"@ != "--host"@) by {
        assert("--port"@[2] != "--host"@[2]);
    }
    assert("--port"@ != "-h"@) by {
        assert("--port"@.len() != "-h"@.len());
    }
    assert(parse_args_from(all, args.len() as int + 2, Settings { port: p, ..s }) == Ok::<Settings, ArgFailure>(Settings { port: p, ..s }));
}

/// Reading depends only on what is left to read: two command lines whose
/// arguments from positions `i` and `j` on are the same read the same from
/// there.
proof fn lemma_parse_shift(x: Seq<Seq<char>>, y: Seq<Seq<char>>, i: int, j: int, cur: Settings)
    requires
        0 <= i <= x.len(),
        0 <= j <= y.len(),
        x.skip(i) == y.skip(j),
    ensures
        parse_args_from(x, i, cur) == parse_args_from(y, j, cur),
    decreases x.len() - i,
{
    assert(x.len() - i == x.skip(i).len());
    assert(y.len() - j == y.skip(j).len());
    if i < x.len() {
        assert(x[i] == x.skip(i)[0]);
        assert(y[j] == y.skip(j)[0]);
        if i + 1 < x.len() {
            assert(x[i + 1] == x.skip(i)[1]);
            assert(y[j + 1] == y.skip(j)[1]);
            assert(x.skip(i + 2) == x.skip(i).skip(2));
            assert(y.skip(j + 2) == y.skip(j).skip(2));
        }
        assert(x.skip(i + 1) == x.skip(i).skip(1));
        assert(y.skip(j + 1) == y.skip(j).skip(1));
        let a = x[i];
        if a == "--host"@ || a == "-h"@ {
            if i + 1 < x.len() {
                lemma_parse_shift(x, y, i + 2, j + 2, Settings { host: x[i + 1], ..cur });
            }
        } else if a == "--port"@ || a == "-p"@ {
            if i + 1 < x.len() && port_number(x[i + 1]) is Some {
                lemma_parse_shift(x, y, i + 2, j + 2, Settings { port: port_number(x[i + 1])->Some_0, ..cur });
            }
        } else if a == "--dir"@ || a == "-d"@ {
            if i + 1 < x.len() {
                lemma_parse_shift(x, y, i + 2, j + 2, Settings { dir: x[i + 1], ..cur });
            }
        } else if "--host="@.is_prefix_of(a) {
            lemma_parse_shift(x, y, i + 1, j + 1, Settings { host: a.skip(7), ..cur });
        } else if "--port="@.is_prefix_of(a) {
            if port_number(a.skip(7)) is Some {
                lemma_parse_shift(x, y, i + 1, j + 1, Settings { port: port_number(a.skip(7))->Some_0, ..cur });
            }
        } else if "--dir="@.is_prefix_of(a) {
            lemma_parse_shift(x, y, i + 1, j + 1, Settings { dir: a.skip(6), ..cur });
        } else if a == "--sort-dirs-first"@ {
            lemma_parse_shift(x, y, i + 1, j + 1, Settings { sort_dirs_first: true, ..cur });
        }
    } else {
        assert(y.skip(j).len() == 0);
    }
}

/// The short options read exactly as the long ones: `-h HOST` as
/// `--host HOST`, `-p PORT` as `--port PORT` and `-d DIR` as `--dir DIR`,
/// wherever an option may stand and whatever follows.
pub proof fn lemma_short_options_read_as_long(args: Seq<Seq<char>>, value: Seq<char>, rest: Seq<Seq<char>>)
    requires
        parse_args_spec(args) is Ok,
    ensures
        parse_args_spec(args + seq!["-h"@, value] + rest) == parse_args_spec(args + seq!["--host"@, value] + rest),
        parse_args_spec(args + seq!["-p"@, value] + rest) == parse_args_spec(args + seq!["--port"@, value] + rest),
        parse_args_spec(args + seq!["-d"@, value] + rest) == parse_args_spec(args + seq!["--dir"@, value] + rest),
{
    reveal_strlit("--host");
    reveal_strlit("-h");
    reveal_strlit("--port");
    reveal_strlit("-p");
    reveal_strlit("--dir");
    reveal_strlit("-d");
    assert("-p"@ != "--host"@ && "-p"@ != "-h"@) by {
        assert("-p"@.len() != "--host"@.len());
        assert("-p"@[1] != "-h"@[1]);
    }
    assert("-d"@ != "--host"@ && "-d"@ != "-h"@ && "-d"@ != "--port"@ && "-d"@ != "-p"@) by {
        assert("-d"@.len() != "--host"@.len());
        assert("-d"@.len() != "--port"@.len());
        assert("-d"@[1] != "-h"@[1]);
        assert("-d"@[1] != "-p"@[1]);
    }
    assert("--port"@ != "--host"@ && "--port"@ != "-h"@) by {
        assert("--port"@[2] != "--host"@[2]);
        assert("--port"@.len() != "-h"@.len());
    }
    assert("--dir"@ != "--host"@ && "--dir"@ != "-h"@ && "--dir"@ != "--port"@ && "--dir"@ != "-p"@) by {
        assert("--dir"@.len() != "--host"@.len());
        assert("--dir"@.len() != "--port"@.len());
        assert("--dir"@.len() != "-h"@.len());
        assert("--dir"@.len() != "-p"@.len());
    }
    let s = parse_args_spec(args)->Ok_0;
    let n = args.len() as int;
    let d = default_settings();
    let short = seq!["-h"@, "-p"@, "-d"@];
    let long = seq!["--host"@, "--port"@, "--dir"@];
    assert forall|k: int| 0 <= k < 3 implies parse_args_spec(args + seq![#[trigger] short[k], value] + rest)
        == parse_args_spec(args + seq![long[k], value] + rest) by {
        let e1 = seq![short[k], value] + rest;
        let e2 = seq![long[k], value] + rest;
        let x = args + e1;
        let y = args + e2;
        assert(args + seq![short[k], value] + rest == x);
        assert(args + seq![long[k], value] + rest == y);
        lemma_parse_append(args, e1, 0, d);
        lemma_parse_append(args, e2, 0, d);
        assert(x[n] == short[k] && x[n + 1] == value);
        assert(y[n] == long[k] && y[n + 1] == value);
        assert(x.skip(n + 2) == rest);
        assert(y.skip(n + 2) == rest);
        if k == 0 {
            lemma_parse_shift(x, y, n + 2, n + 2, Settings { host: value, ..s });
        } else if k == 1 {
            if port_number(value) is Some {
                lemma_parse_shift(x, y, n + 2, n + 2, Settings { port: port_number(value)->Some_0, ..s });
            }
        } else {
            lemma_parse_shift(x, y, n + 2, n + 2, Settings { dir: value, ..s });
        }
    }
    assert(short[0] == "-h"@ && long[0] == "--host"@);
    assert(short[1] == "-p"@ && long[1] == "--port"@);
    assert(short[2] == "-d"@ && long[2] == "--dir"@);
}

/// A `-d` given after an accepted command line sets the directory and
/// leaves every other setting as it was.
pub proof fn lemma_later_short_dir_wins(args: Seq<Seq<char>>, dir: Seq<char>)
    requires
        parse_args_spec(args) is Ok,
    ensures
        parse_args_spec(args + seq!["-d"@, dir]) == Ok::<Settings, ArgFailure>(
            Settings { dir, ..parse_args_spec(args)->Ok_0 },
        ),
{
    lemma_short_options_read_as_long(args, dir, Seq::empty());
    lemma_later_dir_wins(args, dir);
    assert(args + seq!["-d"@, dir] + Seq::<Seq<char>>::empty() == args + seq!["-d"@, dir]);
    assert(args + seq!["--dir"@, dir] + Seq::<Seq<char>>::empty() == args + seq!["--dir"@, dir]);
}

/// `--sort-dirs-first` given after an accepted command line turns the
/// directories-first order on and leaves every other setting as it was.
pub proof fn lemma_sort_flag_sets_order(args: Seq<Seq<char>>)
    requires
        parse_args_spec(args) is Ok,
    ensures
        parse_args_spec(args + seq!["--sort-dirs-first"@]) == Ok::<Settings, ArgFailure>(
            Settings { sort_dirs_first: true, ..parse_args_spec(args)->Ok_0 },
        ),
{
    let ext = seq!["--sort-dirs-first"@];
    lemma_parse_append(args, ext, 0, default_settings());
    let all = args + ext;
    let s = parse_args_spec(args)->Ok_0;
    let a = "--sort-dirs-first"@;
    reveal_strlit("--sort-dirs-first");
    reveal_strlit("--host");
    reveal_strlit("-h");
    reveal_strlit("--port");
    reveal_strlit("-p");
    reveal_strlit("--dir");
    reveal_strlit("-d");
    reveal_strlit("--host=");
    reveal_strlit("--port=");
    reveal_strlit("--dir=");
    assert(all[args.len() as int] == a);
    assert(a != "--host"@ && a != "-h"@ && a != "--port"@ && a != "-p"@ && a != "--dir"@ && a != "-d"@) by {
        assert(a.len() != "--host"@.len() && a.len() != "-h"@.len() && a.len() != "--port"@.len());
        assert(a.len() != "-p"@.len() && a.len() != "--dir"@.len() && a.len() != "-d"@.len());
    }
    assert(!"--host="@.is_prefix_of(a)) by {
        assert(a[2] != "--host="@[2]);
    }
    assert(!"--port="@.is_prefix_of(a)) by {
        assert(a[2] != "--port="@[2]);
    }
    assert(!"--dir="@.is_prefix_of(a)) by {
        assert(a[5] != "--dir="@[5]);
    }
    assert(parse_args_from(all, args.len() as int + 1, Settings { sort_dirs_first: true, ..s })
        == Ok::<Settings, ArgFailure>(Settings { sort_dirs_first: true, ..s }));
}

/// `--host=HOST` reads as `--host HOST`.
pub proof fn lemma_host_equals_form(host: Seq<char>)
    ensures
        parse_args_spec(seq!["--host="@ + host]) == parse_args_spec(seq!["--host"@, host]),
{
    let a = "--host="@ + host;
    reveal_strlit("--host=");
    reveal_strlit("--host");
    reveal_strlit("-h");
    reveal_strlit("--port");
    reveal_strlit("-p");
    reveal_strlit("--dir");
    reveal_strlit("-d");
    assert(a.len() >= 7);
    assert(a != "--host"@ && a != "-h"@ && a != "--port"@ && a != "-p"@ && a != "--dir"@ && a != "-d"@) by {
        assert(a.len() != "--host"@.len() && a.len() != "-h"@.len() && a.len() != "--port"@.len());
        assert(a.len() != "-p"@.len() && a.len() != "--dir"@.len() && a.len() != "-d"@.len());
    }
    assert("--host="@.is_prefix_of(a)) by {
        assert forall|k: int| 0 <= k < 7 implies a[k] == "--host="@[k] by {}
    }
    assert(a.skip(7) == host);
    let d = default_settings();
    assert(parse_args_from(seq![a], 1, Settings { host, ..d }) == Ok::<Settings, ArgFailure>(Settings { host, ..d }));
    let b = seq!["--host"@, host];
    assert(b[0] == "--host"@);
    assert(parse_args_from(b, 2, Settings { host, ..d }) == Ok::<Settings, ArgFailure>(Settings { host, ..d }));
}

} // verus!
