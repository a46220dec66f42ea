//! The command line: `--help`, `--daemon`, `--show` and `--config PATH`.
use vstd::prelude::*;
use crate::text::{chars_of, range_equals};

verus! {

/// What the command line asks for.
pub struct Args {
    /// `-h`, `--help`: print the usage and exit.
    pub help: bool,
    /// `-d`, `--daemon`: run in the background, waiting for `--show`.
    pub daemon_mode: bool,
    /// `-s`, `--show`: tell a running daemon to show the launcher.
    pub show: bool,
    /// `-c PATH`, `--config PATH`: the configuration file to read.
    pub config: Option<String>,
}

/// What an [`Args`] holds.
pub struct ArgsView {
    pub help: bool,
    pub daemon_mode: bool,
    pub show: bool,
    pub config: Option<Seq<char>>,
}

impl View for Args {
    type V = ArgsView;

    open spec fn view(&self) -> ArgsView {
        ArgsView {
            help: self.help,
            daemon_mode: self.daemon_mode,
            show: self.show,
            config: match self.config {
                Some(p) => Some(p@),
                None => None,
            },
        }
    }
}

/// Why a command line is refused.
pub enum ArgError {
    /// `--config` (or `-c`) came last, without a path.
    MissingConfigPath,
    /// An argument that is none of the options.
    UnknownArgument(String),
}

/// What an [`ArgError`] holds.
pub enum ArgErrorView {
    MissingConfigPath,
    UnknownArgument(Seq<char>),
}

impl View for ArgError {
    type V = ArgErrorView;

    open spec fn view(&self) -> ArgErrorView {
        match self {
            ArgError::MissingConfigPath => ArgErrorView::MissingConfigPath,
            ArgError::UnknownArgument(a) => ArgErrorView::UnknownArgument(a@),
        }
    }
}

/// The outcome of reading the arguments from position `i` on, with `acc`
/// read so far. Later options override earlier ones; reading stops at the
/// first error.
pub open spec fn parse_from(argv: Seq<Seq<char>>, i: int, acc: ArgsView) -> Result<
    ArgsView,
    ArgErrorView,
>
    decreases argv.len() - i,
{
    if i < 0 || i >= argv.len() {
        Ok(acc)
    } else {
        let a = argv[i];
        if a == "--help"@ || a == "-h"@ {
            parse_from(argv, i + 1, ArgsView { help: true, ..acc })
        } else if a == "--daemon"@ || a == "-d"@ {
            parse_from(argv, i + 1, ArgsView { daemon_mode: true, ..acc })
        } else if a == "--show"@ || a == "-s"@ {
            parse_from(argv, i + 1, ArgsView { show: true, ..acc })
        } else if a == "--config"@ || a == "-c"@ {
            if i + 1 < argv.len() {
                parse_from(argv, i + 2, ArgsView { config: Some(argv[i + 1]), ..acc })
            } else {
                Err(ArgErrorView::MissingConfigPath)
            }
        } else {
            Err(ArgErrorView::UnknownArgument(a))
        }
    }
}

/// Nothing asked for.
pub open spec fn no_args() -> ArgsView {
    ArgsView { help: false, daemon_mode: false, show: false, config: None }
}

/// The outcome of reading the arguments (the program's name not among them).
pub open spec fn parsed_args(argv: Seq<Seq<char>>) -> Result<ArgsView, ArgErrorView> {
    parse_from(argv, 0, no_args())
}

/// The texts of a list of strings.
pub open spec fn texts(v: Seq<String>) -> Seq<Seq<char>> {
    v.map_values(|s: String| s@)
}

fn text_is(a: &Vec<char>, lit: &str) -> (r: bool)
    ensures
        r == (a@ == lit@),
{
    let l = chars_of(lit);
    let r = range_equals(a, 0, a.len(), &l);
    proof {
        assert(a@.subrange(0, a@.len() as int) =~= a@);
    }
    r
}

/// Reads the command-line arguments (the program's name not among them).
pub fn parse_args(argv: &Vec<String>) -> (r: Result<Args, ArgError>)
    ensures
        match r {
            Ok(a) => parsed_args(texts(argv@)) == Ok::<ArgsView, ArgErrorView>(a@),
            Err(e) => parsed_args(texts(argv@)) == Err::<ArgsView, ArgErrorView>(e@),
        },
{
    let ghost all = texts(argv@);
    let mut args = Args { help: false, daemon_mode: false, show: false, config: None };
    let mut i: usize = 0;
    while i < argv.len()
        invariant
            all == texts(argv@),
            i <= argv.len(),
            parsed_args(all) == parse_from(all, i as int, args@),
        decreases argv.len() - i,
    {
        let a = chars_of(argv[i].as_str());
        proof {
            assert(all[i as int] == a@);
        }
        if text_is(&a, "--help") || text_is(&a, "-h") {
            args.help = true;
        } else if text_is(&a, "--daemon") || text_is(&a, "-d") {
            args.daemon_mode = true;
        } else if text_is(&a, "--show") || text_is(&a, "-s") {
            args.show = true;
        } else if text_is(&a, "--config") || text_is(&a, "-c") {
            i = i + 1;
            if i < argv.len() {
                args.config = Some(argv[i].clone());
                proof {
                    assert(all[i as int] == argv@[i as int]@);
                }
            } else {
                return Err(ArgError::MissingConfigPath);
            }
        } else {
            return Err(ArgError::UnknownArgument(argv[i].clone()));
        }
        i = i + 1;
    }
    Ok(args)
}

// ── laws ────────────────────────────────────────────────────────────────────

proof fn lemma_parse_shift(p: Seq<Seq<char>>, t: Seq<Seq<char>>, j: int, acc: ArgsView)
    requires
        0 <= j,
    ensures
        parse_from(p + t, p.len() + j, acc) == parse_from(t, j, acc),
    decreases t.len() - j,
{
    if j < t.len() {
        assert((p + t)[p.len() + j] == t[j]);
        if j + 1 < t.len() {
            assert((p + t)[p.len() + j + 1] == t[j + 1]);
        }
        let a = t[j];
        if a == "--help"@ || a == "-h"@ {
            lemma_parse_shift(p, t, j + 1, ArgsView { help: true, ..acc });
        } else if a == "--daemon"@ || a == "-d"@ {
            lemma_parse_shift(p, t, j + 1, ArgsView { daemon_mode: true, ..acc });
        } else if a == "--show"@ || a == "-s"@ {
            lemma_parse_shift(p, t, j + 1, ArgsView { show: true, ..acc });
        } else if a == "--config"@ || a == "-c"@ {
            if j + 1 < t.len() {
                lemma_parse_shift(p, t, j + 2, ArgsView { config: Some(t[j + 1]), ..acc });
            }
        }
    }
}

proof fn lemma_parse_split(argv: Seq<Seq<char>>, t: Seq<Seq<char>>, i: int, acc: ArgsView)
    requires
        0 <= i <= argv.len(),
        parse_from(argv, i, acc) is Ok,
    ensures
        parse_from(argv + t, i, acc) == parse_from(t, 0, parse_from(argv, i, acc)->Ok_0),
    decreases argv.len() - i,
{
    if i == argv.len() {
        lemma_parse_shift(argv, t, 0, acc);
    } else {
        assert((argv + t)[i] == argv[i]);
        let a = argv[i];
        if a == "--help"@ || a == "-h"@ {
            lemma_parse_split(argv, t, i + 1, ArgsView { help: true, ..acc });
        } else if a == "--daemon"@ || a == "-d"@ {
            lemma_parse_split(argv, t, i + 1, ArgsView { daemon_mode: true, ..acc });
        } else if a == "--show"@ || a == "-s"@ {
            lemma_parse_split(argv, t, i + 1, ArgsView { show: true, ..acc });
        } else if a == "--config"@ || a == "-c"@ {
            assert((argv + t)[i + 1] == argv[i + 1]);
            lemma_parse_split(argv, t, i + 2, ArgsView { config: Some(argv[i + 1]), ..acc });
        }
    }
}

/// Reading a command line in two parts: when the first part is accepted,
/// the whole is read as the second part starting from what the first part
/// asked for.
pub proof fn lemma_parse_args_in_two_parts(first: Seq<Seq<char>>, rest: Seq<Seq<char>>)
    requires
        parsed_args(first) is Ok,
    ensures
        parsed_args(first + rest) == parse_from(rest, 0, parsed_args(first)->Ok_0),
{
    lemma_parse_split(first, rest, 0, no_args());
}

/// Each option does what it says, wherever it stands after an accepted
/// command line: `--show` adds the show request, `--daemon` the daemon mode,
/// `--help` the help request, `--config PATH` sets the path (the last one
/// given wins), each leaving the rest as it was; an argument that is no
/// option is refused by name, and `--config` with nothing after it is
/// refused.
pub proof fn lemma_each_option(argv: Seq<Seq<char>>, path: Seq<char>, other: Seq<char>)
    requires
        parsed_args(argv) is Ok,
        other != "--help"@ && other != "-h"@ && other != "--daemon"@ && other != "-d"@ && other
            != "--show"@ && other != "-s"@ && other != "--config"@ && other != "-c"@,
    ensures
        ({
            let a = parsed_args(argv)->Ok_0;
            &&& parsed_args(argv.push("--show"@)) == Ok::<ArgsView, ArgErrorView>(
                ArgsView { show: true, ..a },
            )
            &&& parsed_args(argv.push("--daemon"@)) == Ok::<ArgsView, ArgErrorView>(
                ArgsView { daemon_mode: true, ..a },
            )
            &&& parsed_args(argv.push("--help"@)) == Ok::<ArgsView, ArgErrorView>(
                ArgsView { help: true, ..a },
            )
            &&& parsed_args(argv.push("--config"@).push(path)) == Ok::<ArgsView, ArgErrorView>(
                ArgsView { config: Some(path), ..a },
            )
            &&& parsed_args(argv.push("--config"@)) == Err::<ArgsView, ArgErrorView>(
                ArgErrorView::MissingConfigPath,
            )
            &&& parsed_args(argv.push(other)) == Err::<ArgsView, ArgErrorView>(
                ArgErrorView::UnknownArgument(other),
            )
        }),
{
    let a = parsed_args(argv)->Ok_0;
    reveal_strlit("--show");
    reveal_strlit("--daemon");
    reveal_strlit("--help");
    reveal_strlit("--config");
    reveal_strlit("-h");
    reveal_strlit("-d");
    reveal_strlit("-s");
    reveal_strlit("-c");
    let show = "--show"@;
    let daemon = "--daemon"@;
    let help = "--help"@;
    let config = "--config"@;
    // the options are told apart by their characters
    assert(show.len() == 6);
    assert(help.len() == 6);
    assert(show[2] == 's');
    assert(help[2] == 'h');
    assert("-h"@.len() == 2);
    assert("-s"@.len() == 2);
    assert("-d"@.len() == 2);
    assert(daemon.len() == 8);
    assert(config.len() == 8);
    assert(daemon[2] == 'd');
    assert(config[2] == 'c');
    assert(show != help && show != "-h"@) by {
        assert(show[2] != help[2]);
    }
    assert(daemon != help && daemon != "-h"@) by {
        assert(daemon[2] != help[2]);
    }
    assert(daemon != show && daemon != "-s"@) by {
        assert(daemon[2] != show[2]);
    }
    assert(config != help && config != "-h"@ && config != daemon && config != "-d"@ && config
        != show && config != "-s"@) by {
        assert(config[2] != help[2]);
        assert(config[2] != daemon[2]);
    }
    let t1 = seq![show];
    assert(argv.push(show) =~= argv + t1);
    lemma_parse_args_in_two_parts(argv, t1);
    assert(parse_from(t1, 1, ArgsView { show: true, ..a }) == Ok::<ArgsView, ArgErrorView>(
        ArgsView { show: true, ..a },
    ));
    let t2 = seq![daemon];
    assert(argv.push(daemon) =~= argv + t2);
    lemma_parse_args_in_two_parts(argv, t2);
    assert(parse_from(t2, 1, ArgsView { daemon_mode: true, ..a }) == Ok::<ArgsView, ArgErrorView>(
        ArgsView { daemon_mode: true, ..a },
    ));
    let t3 = seq![help];
    assert(argv.push(help) =~= argv + t3);
    lemma_parse_args_in_two_parts(argv, t3);
    assert(parse_from(t3, 1, ArgsView { help: true, ..a }) == Ok::<ArgsView, ArgErrorView>(
        ArgsView { help: true, ..a },
    ));
    let t4 = seq![config, path];
    assert(argv.push(config).push(path) =~= argv + t4);
    lemma_parse_args_in_two_parts(argv, t4);
    assert(t4[0] == config && t4[1] == path);
    assert(parse_from(t4, 2, ArgsView { config: Some(path), ..a }) == Ok::<ArgsView, ArgErrorView>(
        ArgsView { config: Some(path), ..a },
    ));
    let t5 = seq![config];
    assert(argv.push(config) =~= argv + t5);
    lemma_parse_args_in_two_parts(argv, t5);
    let t6 = seq![other];
    assert(argv.push(other) =~= argv + t6);
    lemma_parse_args_in_two_parts(argv, t6);
}

} // verus!
