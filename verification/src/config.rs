//! Command-line settings of the server: `-p port -x width -y height
//! -n name1 name2 ... -c clients -f freq`, and `-h` for help.

pub mod config;

use vstd::prelude::*;

use crate::text::{chars_are, chars_of, parse_unsigned, parse_unsigned_in};

verus! {

/// Settings given on the command line.
#[derive(Debug)]
pub struct Config {
    /// Port number to listen on.
    pub port: u16,
    /// Number of authorized clients per team.
    pub clients: usize,
    /// Names of the teams.
    pub names: Vec<String>,
    /// Time unit frequency.
    pub frequency: u32,
    /// Board width.
    pub x: usize,
    /// Board height.
    pub y: usize,
}

/// An option that takes a numeric value.
#[derive(Debug, Clone, Copy, PartialEq, Eq, Structural)]
pub enum Flag {
    Port,
    Clients,
    Frequency,
    Width,
    Height,
}

/// Why a command line was refused.
#[derive(Debug, Clone, Copy, PartialEq, Eq, Structural)]
pub enum ConfigError {
    /// The option is the last argument.
    MissingValue(Flag),
    /// The option's value is not a number of its range.
    InvalidValue(Flag),
    /// The argument at this position is no option.
    UnexpectedArgument(usize),
}

/// What a command line asks for.
#[derive(Debug)]
pub enum CliRequest {
    /// Run with these settings.
    Run(Config),
    /// Print the usage.
    Help,
}

/// The settings as plain values.
pub struct Settings {
    pub port: u16,
    pub clients: usize,
    pub names: Seq<Seq<char>>,
    pub frequency: u32,
    pub x: usize,
    pub y: usize,
}

impl Config {
    /// The settings as plain values.
    pub open spec fn settings(&self) -> Settings {
        Settings {
            port: self.port,
            clients: self.clients,
            names: self.names@.map_values(|s: String| s@),
            frequency: self.frequency,
            x: self.x,
            y: self.y,
        }
    }
}

/// Settings used for what the command line leaves out.
pub open spec fn default_settings() -> Settings {
    Settings {
        port: 4242,
        clients: 10,
        names: seq!["GRAPHICAL"@],
        frequency: 100,
        x: 10,
        y: 10,
    }
}

/// `s` starts with `-`.
pub open spec fn is_option_like(s: Seq<char>) -> bool {
    s.len() > 0 && s[0] == '-'
}

/// Number of arguments from position `j` on that do not start with `-`.
pub open spec fn names_run(args: Seq<Seq<char>>, j: int) -> nat
    decreases args.len() - j,
{
    if 0 <= j < args.len() && !is_option_like(args[j]) {
        1 + names_run(args, j + 1)
    } else {
        0
    }
}

/// A run of names stays within the arguments.
pub proof fn lemma_names_run_bound(args: Seq<Seq<char>>, j: int)
    requires
        0 <= j,
    ensures
        j + names_run(args, j) <= if j <= args.len() {
            args.len() as int
        } else {
            j
        },
    decreases args.len() - j,
{
    if 0 <= j < args.len() && !is_option_like(args[j]) {
        lemma_names_run_bound(args, j + 1);
    }
}

/// The numeric option `a`, if it is one, with its bound.
pub open spec fn numeric_flag(a: Seq<char>) -> Option<(Flag, nat)> {
    if a == "-p"@ {
        Some((Flag::Port, u16::MAX as nat))
    } else if a == "-c"@ {
        Some((Flag::Clients, usize::MAX as nat))
    } else if a == "-f"@ {
        Some((Flag::Frequency, u32::MAX as nat))
    } else if a == "-x"@ {
        Some((Flag::Width, usize::MAX as nat))
    } else if a == "-y"@ {
        Some((Flag::Height, usize::MAX as nat))
    } else {
        None
    }
}

/// `c` with the setting of `flag` set to `v`.
pub open spec fn with_flag(c: Settings, flag: Flag, v: nat) -> Settings {
    match flag {
        Flag::Port => Settings { port: v as u16, ..c },
        Flag::Clients => Settings { clients: v as usize, ..c },
        Flag::Frequency => Settings { frequency: v as u32, ..c },
        Flag::Width => Settings { x: v as usize, ..c },
        Flag::Height => Settings { y: v as usize, ..c },
    }
}

/// Reading of `args[i..]` on top of the settings `c`: the final settings,
/// `None` for a help request, or the first error.
pub open spec fn parse_from(args: Seq<Seq<char>>, i: int, c: Settings) -> Result<Option<Settings>, ConfigError>
    decreases args.len() - i,
{
    if i < 0 || i >= args.len() {
        Ok(Some(c))
    } else {
        let a = args[i];
        if a == "-h"@ {
            Ok(None)
        } else if numeric_flag(a) is Some {
            let (flag, max) = numeric_flag(a)->0;
            if i + 1 >= args.len() {
                Err(ConfigError::MissingValue(flag))
            } else {
                match parse_unsigned(args[i + 1], max) {
                    Some(v) => parse_from(args, i + 2, with_flag(c, flag, v)),
                    None => Err(ConfigError::InvalidValue(flag)),
                }
            }
        } else if a == "-n"@ {
            let k = names_run(args, i + 1);
            proof {
                lemma_names_run_bound(args, i + 1);
            }
            let c2 = if k > 0 {
                Settings { names: args.subrange(i + 1, i + 1 + k), ..c }
            } else {
                c
            };
            parse_from(args, i + 1 + k, c2)
        } else {
            Err(ConfigError::UnexpectedArgument(i as usize))
        }
    }
}

/// The views of the arguments.
pub open spec fn arg_views(args: Seq<String>) -> Seq<Seq<char>> {
    args.map_values(|s: String| s@)
}

/// `r` is the outcome `o` of reading a command line.
pub open spec fn parse_outcome(r: Result<CliRequest, ConfigError>, o: Result<Option<Settings>, ConfigError>) -> bool {
    match o {
        Ok(Some(s)) => r matches Ok(CliRequest::Run(c)) && c.settings() == s,
        Ok(None) => r matches Ok(CliRequest::Help),
        Err(e) => r == Err::<CliRequest, ConfigError>(e),
    }
}

/// The flag an argument names and its bound, as `numeric_flag` says.
fn numeric_flag_exec(a: &Vec<char>) -> (r: Option<(Flag, u64)>)
    ensures
        match numeric_flag(a@) {
            Some((f, m)) => r == Some((f, m as u64)),
            None => r is None,
        },
{
    if chars_are(a, "-p") {
        Some((Flag::Port, u16::MAX as u64))
    } else if chars_are(a, "-c") {
        Some((Flag::Clients, usize::MAX as u64))
    } else if chars_are(a, "-f") {
        Some((Flag::Frequency, u32::MAX as u64))
    } else if chars_are(a, "-x") {
        Some((Flag::Width, usize::MAX as u64))
    } else if chars_are(a, "-y") {
        Some((Flag::Height, usize::MAX as u64))
    } else {
        None
    }
}

impl Config {
    /// Settings used for what the command line leaves out: port 4242, 10
    /// clients per team, one team `GRAPHICAL`, frequency 100, a 10 x 10
    /// board.
    pub fn default() -> (c: Config)
        ensures
            c.settings() == default_settings(),
    {
        let mut names: Vec<String> = Vec::new();
        names.push(String::from_str("GRAPHICAL"));
        let c = Config { port: 4242, clients: 10, names, frequency: 100, x: 10, y: 10 };
        assert(c.settings().names =~= seq!["GRAPHICAL"@]);
        c
    }

    /// Reads the command line `args` (without the program name).
    pub fn parse(args: &Vec<String>) -> (r: Result<CliRequest, ConfigError>)
        ensures
            parse_outcome(r, parse_from(arg_views(args@), 0, default_settings())),
    {
        let ghost views = arg_views(args@);
        let mut config = Config::default();
        let mut i: usize = 0;
        while i < args.len()
            invariant
                i <= args@.len() + 1,
                views == arg_views(args@),
                parse_from(views, 0, default_settings()) == parse_from(views, i as int, config.settings()),
            decreases args@.len() + 1 - i,
        {
            let a = chars_of(args[i].as_str());
            if chars_are(&a, "-h") {
                return Ok(CliRequest::Help);
            }
            match numeric_flag_exec(&a) {
                Some((flag, max)) => {
                    if i + 1 >= args.len() {
                        return Err(ConfigError::MissingValue(flag));
                    }
                    let v = chars_of(args[i + 1].as_str());
                    let n = match parse_unsigned_in(&v, 0, v.len(), max) {
                        Some(n) => n,
                        None => {
                            assert(v@.subrange(0, v@.len() as int) =~= v@);
                            return Err(ConfigError::InvalidValue(flag));
                        },
                    };
                    assert(v@.subrange(0, v@.len() as int) =~= v@);
                    let ghost before = config.settings();
                    match flag {
                        Flag::Port => config.port = n as u16,
                        Flag::Clients => config.clients = n as usize,
                        Flag::Frequency => config.frequency = n as u32,
                        Flag::Width => config.x = n as usize,
                        Flag::Height => config.y = n as usize,
                    }
                    assert(config.settings() == with_flag(before, flag, n as nat));
                    i = i + 2;
                },
                None => {
                    if chars_are(&a, "-n") {
                        let mut names: Vec<String> = Vec::new();
                        let mut j = i + 1;
                        assert(names_run(views, (i + 1) as int) == (j - (i + 1)) + names_run(views, j as int));
                        while j < args.len() && !starts_with_dash(&args[j])
                            invariant
                                i + 1 <= j <= args@.len(),
                                views == arg_views(args@),
                                names@.len() == j - (i + 1),
                                forall|k: int| 0 <= k < names@.len() ==> (#[trigger] names@[k])@ == views[i + 1 + k],
                                names_run(views, (i + 1) as int) == (j - (i + 1)) + names_run(views, j as int),
                            decreases args@.len() - j,
                        {
                            names.push(args[j].clone());
                            j += 1;
                        }
                        assert(names_run(views, j as int) == 0);
                        let ghost before = config.settings();
                        if names.len() > 0 {
                            config.names = names;
                            assert(config.settings().names =~= views.subrange(i + 1, j as int));
                        }
                        i = j;
                    } else {
                        return Err(ConfigError::UnexpectedArgument(i));
                    }
                },
            }
        }
        Ok(CliRequest::Run(config))
    }
}

/// Whether `s` starts with `-`.
fn starts_with_dash(s: &String) -> (r: bool)
    ensures
        r == is_option_like(s@),
{
    let v = chars_of(s.as_str());
    v.len() > 0 && v[0] == '-'
}

} // verus!
