//! What the command line sets.

use vstd::prelude::*;
use vstd::slice::slice_to_vec;
use vstd::string::*;

use crate::text;

verus! {

/// The address that is listened on unless `--host` says otherwise.
pub const DEFAULT_HOST: &'static str = "127.0.0.1";

/// The port that is listened on unless `--port` says otherwise.
pub const DEFAULT_PORT: u16 = 8080;

/// The file that `/` stands for.
pub const DEFAULT_INDEX: &'static str = "Flashcards.html";

/// The settings of the server.
#[derive(Debug)]
pub struct Config {
    pub host: String,
    pub port: u16,
    /// The directory that is served, as the bytes of its path.
    pub dir: Vec<u8>,
    /// The file that `/` stands for.
    pub index: String,
}

/// The settings of the server.
pub struct ConfigView {
    pub host: Seq<char>,
    pub port: nat,
    pub dir: Seq<u8>,
    pub index: Seq<char>,
}

impl View for Config {
    type V = ConfigView;

    open spec fn view(&self) -> ConfigView {
        ConfigView {
            host: self.host@,
            port: self.port as nat,
            dir: self.dir@,
            index: self.index@,
        }
    }
}

/// What the command line asks for.
#[derive(Debug)]
pub enum Command {
    /// To show the help text.
    Help,
    /// To serve with these settings.
    Serve(Config),
}

/// What a command line stands for.
pub enum CommandView {
    Help,
    Serve(ConfigView),
    /// It is not understood, for the reason given.
    Invalid(Seq<char>),
}

/// The settings without any argument.
pub open spec fn default_config(cwd: Seq<u8>) -> ConfigView {
    ConfigView {
        host: DEFAULT_HOST@,
        port: DEFAULT_PORT as nat,
        dir: cwd,
        index: DEFAULT_INDEX@,
    }
}

/// What the arguments `args` make of the settings `config`. They are read in order; the
/// first one that asks for help or cannot be understood decides.
pub open spec fn parse_arguments(config: ConfigView, args: Seq<Seq<char>>) -> CommandView
    decreases args.len(),
{
    if args.len() == 0 {
        CommandView::Serve(config)
    } else if args[0] == "-h"@ || args[0] == "--help"@ {
        CommandView::Help
    } else if args[0] == "--host"@ {
        if args.len() < 2 {
            CommandView::Invalid("--host needs a value"@)
        } else {
            parse_arguments(ConfigView { host: args[1], ..config }, args.skip(2))
        }
    } else if args[0] == "-p"@ || args[0] == "--port"@ {
        if args.len() < 2 {
            CommandView::Invalid("--port needs a value"@)
        } else {
            match text::parse_number(args[1], u16::MAX as nat) {
                Some(port) => parse_arguments(ConfigView { port, ..config }, args.skip(2)),
                None => CommandView::Invalid("invalid port: "@ + args[1]),
            }
        }
    } else if args[0] == "-d"@ || args[0] == "--dir"@ {
        if args.len() < 2 {
            CommandView::Invalid("--dir needs a value"@)
        } else {
            parse_arguments(
                ConfigView { dir: vstd::utf8::encode_utf8(args[1]), ..config },
                args.skip(2),
            )
        }
    } else {
        CommandView::Invalid("unknown argument: "@ + args[0])
    }
}

/// The texts that strings hold.
pub open spec fn texts(args: Seq<String>) -> Seq<Seq<char>> {
    args.map_values(|arg: String| arg@)
}

/// The outcome of reading a command line.
pub open spec fn outcome(r: Result<Command, String>) -> CommandView {
    match r {
        Ok(Command::Help) => CommandView::Help,
        Ok(Command::Serve(config)) => CommandView::Serve(config@),
        Err(message) => CommandView::Invalid(message@),
    }
}

impl Config {
    /// Reads the arguments of the command line, without the name of the program. The
    /// directory `cwd` is served unless `--dir` names another; neither is looked at.
    pub fn parse_args(args: &[String], cwd: &[u8]) -> (r: Result<Command, String>)
        ensures
            outcome(r) == parse_arguments(default_config(cwd@), texts(args@)),
    {
        let ghost all = texts(args@);
        let mut config = Config {
            host: DEFAULT_HOST.to_string(),
            port: DEFAULT_PORT,
            dir: slice_to_vec(cwd),
            index: DEFAULT_INDEX.to_string(),
        };
        let mut i: usize = 0;
        proof {
            assert(all.skip(0) =~= all);
        }
        while i < args.len()
            invariant
                i <= args@.len(),
                all == texts(args@),
                parse_arguments(config@, all.skip(i as int)) == parse_arguments(
                    default_config(cwd@),
                    all,
                ),
            decreases args@.len() - i,
        {
            let ghost rest = all.skip(i as int);
            let arg: &str = args[i].as_str();
            proof {
                assert(rest[0] == arg@);
                if i + 1 < args@.len() {
                    assert(rest[1] == args@[i + 1]@);
                    assert(rest.skip(2) =~= all.skip(i + 2));
                }
            }
            if text::same_text(arg, "-h") || text::same_text(arg, "--help") {
                return Ok(Command::Help);
            } else if text::same_text(arg, "--host") {
                if args.len() - i < 2 {
                    return Err("--host needs a value".to_string());
                }
                config.host = args[i + 1].clone();
            } else if text::same_text(arg, "-p") || text::same_text(arg, "--port") {
                if args.len() - i < 2 {
                    return Err("--port needs a value".to_string());
                }
                match text::read_number(args[i + 1].as_str(), u16::MAX as u64) {
                    Some(port) => {
                        config.port = port as u16;
                    },
                    None => {
                        return Err("invalid port: ".to_string().concat(args[i + 1].as_str()));
                    },
                }
            } else if text::same_text(arg, "-d") || text::same_text(arg, "--dir") {
                if args.len() - i < 2 {
                    return Err("--dir needs a value".to_string());
                }
                config.dir = slice_to_vec(args[i + 1].as_str().as_bytes());
            } else {
                return Err("unknown argument: ".to_string().concat(arg));
            }
            i = i + 2;
        }
        Ok(Command::Serve(config))
    }
}

/// No argument changes the index file.
pub proof fn lemma_index_is_kept(config: ConfigView, args: Seq<Seq<char>>)
    requires
        parse_arguments(config, args) is Serve,
    ensures
        parse_arguments(config, args)->Serve_0.index == config.index,
    decreases args.len(),
{
    if args.len() > 1 {
        let (host, dir) = (args[1], vstd::utf8::encode_utf8(args[1]));
        if args[0] == "--host"@ {
            lemma_index_is_kept(ConfigView { host, ..config }, args.skip(2));
        } else if args[0] == "-p"@ || args[0] == "--port"@ {
            let port = text::parse_number(args[1], u16::MAX as nat)->0;
            lemma_index_is_kept(ConfigView { port, ..config }, args.skip(2));
        } else {
            lemma_index_is_kept(ConfigView { dir, ..config }, args.skip(2));
        }
    }
}

/// Whether the message says that the last argument needs another one behind it.
pub open spec fn lacks_a_value(message: Seq<char>) -> bool {
    message == "--host needs a value"@ || message == "--port needs a value"@ || message
        == "--dir needs a value"@
}

/// Whether the message says that the last argument needs another one behind it, so that
/// more arguments could still change what the command line asks for.
pub fn is_open(message: &str) -> (r: bool)
    ensures
        r == lacks_a_value(message@),
{
    text::same_text(message, "--host needs a value") || text::same_text(
        message,
        "--port needs a value",
    ) || text::same_text(message, "--dir needs a value")
}

/// What came of looking up the directory of a command line. A path is shown as the system
/// shows it.
#[derive(Debug)]
pub enum Resolved {
    /// The path could not be looked up.
    Failed { shown: String, reason: String },
    /// The path leads to something else than a directory, which has the path that is shown.
    NotADirectory { shown: String },
    /// The directory has this path.
    Directory(Vec<u8>),
}

/// What came of looking up the directory of a command line.
pub enum ResolvedView {
    Failed { shown: Seq<char>, reason: Seq<char> },
    NotADirectory { shown: Seq<char> },
    Directory(Seq<u8>),
}

impl View for Resolved {
    type V = ResolvedView;

    open spec fn view(&self) -> ResolvedView {
        match self {
            Resolved::Failed { shown, reason } => ResolvedView::Failed {
                shown: shown@,
                reason: reason@,
            },
            Resolved::NotADirectory { shown } => ResolvedView::NotADirectory { shown: shown@ },
            Resolved::Directory(dir) => ResolvedView::Directory(dir@),
        }
    }
}

/// The settings with the directory that was found, or a message.
pub open spec fn with_directory(config: ConfigView, found: ResolvedView) -> Result<
    ConfigView,
    Seq<char>,
> {
    match found {
        ResolvedView::Failed { shown, reason } => Err(
            "cannot resolve --dir "@ + shown + ": "@ + reason,
        ),
        ResolvedView::NotADirectory { shown } => Err("--dir is not a directory: "@ + shown),
        ResolvedView::Directory(dir) => Ok(ConfigView { dir, ..config }),
    }
}

impl Config {
    /// Takes the directory that was found in the place of the one of the command line.
    pub fn resolve(self, found: Resolved) -> (r: Result<Config, String>)
        ensures
            match r {
                Ok(config) => with_directory(self@, found@) == Ok::<ConfigView, Seq<char>>(
                    config@,
                ),
                Err(message) => with_directory(self@, found@) == Err::<ConfigView, Seq<char>>(
                    message@,
                ),
            },
    {
        match found {
            Resolved::Failed { shown, reason } => Err(
                "cannot resolve --dir ".to_string().concat(shown.as_str()).concat(": ").concat(
                    reason.as_str(),
                ),
            ),
            Resolved::NotADirectory { shown } => Err(
                "--dir is not a directory: ".to_string().concat(shown.as_str()),
            ),
            Resolved::Directory(dir) => Ok(
                Config { host: self.host, port: self.port, dir, index: self.index },
            ),
        }
    }
}

/// Arguments are read one after the other: those behind a command line that sets up the
/// server change the settings that it sets up. So of two arguments for one setting the
/// last one counts. A request for help, or an argument that is not understood, decides
/// whatever follows.
pub proof fn law_later_arguments_count(
    config: ConfigView,
    args: Seq<Seq<char>>,
    more: Seq<Seq<char>>,
)
    ensures
        match parse_arguments(config, args) {
            CommandView::Serve(set) => parse_arguments(config, args + more) == parse_arguments(
                set,
                more,
            ),
            CommandView::Help => parse_arguments(config, args + more) is Help,
            CommandView::Invalid(message) => parse_arguments(config, args + more)
                == CommandView::Invalid(message) || lacks_a_value(message),
        },
    decreases args.len(),
{
    let all = args + more;
    if args.len() == 0 {
        assert(all =~= more);
    } else {
        assert(all[0] == args[0]);
        if args.len() > 1 {
            assert(all[1] == args[1]);
            assert(all.skip(2) =~= args.skip(2) + more);
            let (host, dir) = (args[1], vstd::utf8::encode_utf8(args[1]));
            if args[0] == "--host"@ {
                law_later_arguments_count(ConfigView { host, ..config }, args.skip(2), more);
            } else if args[0] == "-p"@ || args[0] == "--port"@ {
                let port = text::parse_number(args[1], u16::MAX as nat)->0;
                law_later_arguments_count(ConfigView { port, ..config }, args.skip(2), more);
            } else {
                law_later_arguments_count(ConfigView { dir, ..config }, args.skip(2), more);
            }
        }
    }
}

/// Without arguments the defaults hold.
pub proof fn law_defaults(cwd: Seq<u8>)
    ensures
        parse_arguments(default_config(cwd), Seq::empty()) == CommandView::Serve(
            ConfigView { host: "127.0.0.1"@, port: 8080, dir: cwd, index: "Flashcards.html"@ },
        ),
{
}

proof fn lemma_options_differ()
    ensures
        "-h"@ != "--help"@,
        "-h"@ != "--host"@,
        "-h"@ != "-p"@,
        "-h"@ != "--port"@,
        "-h"@ != "-d"@,
        "-h"@ != "--dir"@,
        "--help"@ != "--host"@,
        "--help"@ != "-p"@,
        "--help"@ != "--port"@,
        "--help"@ != "-d"@,
        "--help"@ != "--dir"@,
        "--host"@ != "-p"@,
        "--host"@ != "--port"@,
        "--host"@ != "-d"@,
        "--host"@ != "--dir"@,
        "-p"@ != "--port"@,
        "-p"@ != "-d"@,
        "-p"@ != "--dir"@,
        "--port"@ != "-d"@,
        "--port"@ != "--dir"@,
        "-d"@ != "--dir"@,
{
    reveal_strlit("-h");
    reveal_strlit("--help");
    reveal_strlit("--host");
    reveal_strlit("-p");
    reveal_strlit("--port");
    reveal_strlit("-d");
    reveal_strlit("--dir");
    assert("-h"@[1] == 'h' && "-p"@[1] == 'p' && "-d"@[1] == 'd');
    assert("--help"@[3] == 'e' && "--host"@[3] == 'o' && "--host"@[2] == 'h' && "--port"@[2] == 'p');
}

/// `--host` sets the address, and nothing else.
pub proof fn law_host_option(config: ConfigView, args: Seq<Seq<char>>, value: Seq<char>)
    requires
        parse_arguments(config, args) is Serve,
    ensures
        parse_arguments(config, args + seq!["--host"@, value]) matches CommandView::Serve(after)
            && {
            let before = parse_arguments(config, args)->Serve_0;
            &&& after.host == value
            &&& after.port == before.port
            &&& after.dir == before.dir
            &&& after.index == before.index
        },
{
    let more = seq!["--host"@, value];
    lemma_options_differ();
    law_later_arguments_count(config, args, more);
    assert(more.skip(2) =~= Seq::empty());
    reveal_with_fuel(parse_arguments, 2);
}

/// `--port` and `-p` set the port, and nothing else, where the value is a number of at most
/// 16 bits; another value is refused.
pub proof fn law_port_option(
    config: ConfigView,
    args: Seq<Seq<char>>,
    option: Seq<char>,
    value: Seq<char>,
)
    requires
        parse_arguments(config, args) is Serve,
        option == "--port"@ || option == "-p"@,
    ensures
        match text::parse_number(value, 65535) {
            Some(port) => parse_arguments(config, args + seq![option, value]) matches
                CommandView::Serve(after) && {
                let before = parse_arguments(config, args)->Serve_0;
                &&& after.host == before.host
                &&& after.port == port
                &&& after.dir == before.dir
                &&& after.index == before.index
            },
            None => parse_arguments(config, args + seq![option, value]) == CommandView::Invalid(
                "invalid port: "@ + value,
            ),
        },
{
    let more = seq![option, value];
    lemma_options_differ();
    law_later_arguments_count(config, args, more);
    assert(more.skip(2) =~= Seq::empty());
    reveal_with_fuel(parse_arguments, 2);
}

/// `--dir` and `-d` set the directory, and nothing else.
pub proof fn law_dir_option(
    config: ConfigView,
    args: Seq<Seq<char>>,
    option: Seq<char>,
    value: Seq<char>,
)
    requires
        parse_arguments(config, args) is Serve,
        option == "--dir"@ || option == "-d"@,
    ensures
        parse_arguments(config, args + seq![option, value]) matches CommandView::Serve(after) && {
            let before = parse_arguments(config, args)->Serve_0;
            &&& after.host == before.host
            &&& after.port == before.port
            &&& after.dir == vstd::utf8::encode_utf8(value)
            &&& after.index == before.index
        },
{
    let more = seq![option, value];
    lemma_options_differ();
    law_later_arguments_count(config, args, more);
    assert(more.skip(2) =~= Seq::empty());
    reveal_with_fuel(parse_arguments, 2);
}

/// `--help` and `-h` ask for help, whatever follows.
pub proof fn law_help_option(
    config: ConfigView,
    args: Seq<Seq<char>>,
    option: Seq<char>,
    more: Seq<Seq<char>>,
)
    requires
        parse_arguments(config, args) is Serve,
        option == "--help"@ || option == "-h"@,
    ensures
        parse_arguments(config, args + seq![option] + more) is Help,
{
    let rest = seq![option] + more;
    lemma_options_differ();
    law_later_arguments_count(config, args, rest);
    assert(args + seq![option] + more =~= args + rest);
    assert(rest[0] == option);
}

/// An option that needs a value is refused where none follows.
pub proof fn law_options_need_values(
    config: ConfigView,
    args: Seq<Seq<char>>,
    option: Seq<char>,
)
    requires
        parse_arguments(config, args) is Serve,
    ensures
        option == "--host"@ ==> parse_arguments(config, args + seq![option])
            == CommandView::Invalid("--host needs a value"@),
        option == "--port"@ || option == "-p"@ ==> parse_arguments(config, args + seq![option])
            == CommandView::Invalid("--port needs a value"@),
        option == "--dir"@ || option == "-d"@ ==> parse_arguments(config, args + seq![option])
            == CommandView::Invalid("--dir needs a value"@),
{
    lemma_options_differ();
    law_later_arguments_count(config, args, seq![option]);
}

/// Any other argument where an option is expected is refused, whatever follows, and so is
/// whatever follows a port that is no number.
pub proof fn law_other_arguments_are_refused(
    config: ConfigView,
    args: Seq<Seq<char>>,
    arg: Seq<char>,
    value: Seq<char>,
    more: Seq<Seq<char>>,
)
    requires
        parse_arguments(config, args) is Serve,
    ensures
        arg != "-h"@
            && arg != "--help"@
            && arg != "--host"@
            && arg != "-p"@
            && arg != "--port"@
            && arg != "-d"@
            && arg != "--dir"@ ==> parse_arguments(
            config,
            args + seq![arg] + more,
        ) == CommandView::Invalid("unknown argument: "@ + arg),
        (arg == "--port"@ || arg == "-p"@) && text::parse_number(value, 65535) is None
            ==> parse_arguments(config, args + seq![arg, value] + more) == CommandView::Invalid(
            "invalid port: "@ + value,
        ),
{
    lemma_options_differ();
    let rest = seq![arg] + more;
    law_later_arguments_count(config, args, rest);
    assert(args + seq![arg] + more =~= args + rest);
    assert(rest[0] == arg);
    let pair = seq![arg, value] + more;
    law_later_arguments_count(config, args, pair);
    assert(args + seq![arg, value] + more =~= args + pair);
    assert(pair[0] == arg && pair[1] == value);
}

/// The messages that more arguments could change are the three about a missing value.
pub proof fn law_open_messages(message: Seq<char>)
    ensures
        lacks_a_value(message) <==> message == "--host needs a value"@ || message
            == "--port needs a value"@ || message == "--dir needs a value"@,
{
}

/// The directory that was found takes the place of the one of the command line, and changes
/// no other setting. What stands in the way is told.
pub proof fn law_directories_are_resolved(
    config: ConfigView,
    dir: Seq<u8>,
    shown: Seq<char>,
    reason: Seq<char>,
)
    ensures
        with_directory(config, ResolvedView::Directory(dir)) matches Ok(after) && after.dir == dir
            && after.host == config.host && after.port == config.port && after.index
            == config.index,
        with_directory(config, ResolvedView::Failed { shown, reason }) == Err::<
            ConfigView,
            Seq<char>,
        >("cannot resolve --dir "@ + shown + ": "@ + reason),
        with_directory(config, ResolvedView::NotADirectory { shown }) == Err::<
            ConfigView,
            Seq<char>,
        >("--dir is not a directory: "@ + shown),
{
}

/// The settings are what the fields hold, and a command line stands for its texts and its
/// outcome.
pub proof fn law_settings_are_seen(
    config: Config,
    args: Seq<String>,
    r: Result<Command, String>,
    found: Resolved,
)
    ensures
        config@.host == config.host@ && config@.port == config.port && config@.dir == config.dir@
            && config@.index == config.index@,
        texts(args).len() == args.len(),
        forall|i: int| 0 <= i < args.len() ==> #[trigger] texts(args)[i] == args[i]@,
        match r {
            Ok(Command::Help) => outcome(r) is Help,
            Ok(Command::Serve(settings)) => outcome(r) == CommandView::Serve(settings@),
            Err(message) => outcome(r) == CommandView::Invalid(message@),
        },
        match found {
            Resolved::Failed { shown, reason } => found@ == (ResolvedView::Failed {
                shown: shown@,
                reason: reason@,
            }),
            Resolved::NotADirectory { shown } => found@ == (ResolvedView::NotADirectory {
                shown: shown@,
            }),
            Resolved::Directory(dir) => found@ == ResolvedView::Directory(dir@),
        },
{
}

} // verus!
