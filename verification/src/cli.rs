use vstd::prelude::*;

use crate::model::strings_view;

verus! {

/// What the command line asks the program to do.
pub enum Command {
    /// Index the folder at `dir_path` in the background, keeping the index
    /// at `index_path`, and answer search requests at `address`.
    Serve { dir_path: String, index_path: String, address: String },
    /// Index the folder at `dir_path` and save the index at `index_path`.
    Index { dir_path: String, index_path: String },
    /// Tell how many documents the index file at `index_path` holds.
    Search { index_path: String },
}

/// Why a command line was refused.
pub enum CommandError {
    /// Nothing follows the options.
    NoSubcommand,
    /// The sqlite option was given to the subcommand, which does not
    /// support it.
    SqliteNotSupported { subcommand: String },
    /// The subcommand needs a path that was not given.
    MissingPath { subcommand: String },
    /// The subcommand is not known.
    UnknownSubcommand { subcommand: String },
}

/// A command as plain values.
pub enum CommandView {
    Serve { dir_path: Seq<char>, index_path: Seq<char>, address: Seq<char> },
    Index { dir_path: Seq<char>, index_path: Seq<char> },
    Search { index_path: Seq<char> },
}

/// A refusal as plain values.
pub enum CommandErrorView {
    NoSubcommand,
    SqliteNotSupported { subcommand: Seq<char> },
    MissingPath { subcommand: Seq<char> },
    UnknownSubcommand { subcommand: Seq<char> },
}

impl View for Command {
    type V = CommandView;

    open spec fn view(&self) -> CommandView {
        match self {
            Command::Serve { dir_path, index_path, address } => CommandView::Serve {
                dir_path: dir_path@,
                index_path: index_path@,
                address: address@,
            },
            Command::Index { dir_path, index_path } => CommandView::Index {
                dir_path: dir_path@,
                index_path: index_path@,
            },
            Command::Search { index_path } => CommandView::Search { index_path: index_path@ },
        }
    }
}

impl View for CommandError {
    type V = CommandErrorView;

    open spec fn view(&self) -> CommandErrorView {
        match self {
            CommandError::NoSubcommand => CommandErrorView::NoSubcommand,
            CommandError::SqliteNotSupported { subcommand } => CommandErrorView::SqliteNotSupported {
                subcommand: subcommand@,
            },
            CommandError::MissingPath { subcommand } => CommandErrorView::MissingPath {
                subcommand: subcommand@,
            },
            CommandError::UnknownSubcommand { subcommand } => CommandErrorView::UnknownSubcommand {
                subcommand: subcommand@,
            },
        }
    }
}

/// The outcome of parsing, as plain values.
pub open spec fn outcome_view(r: Result<Command, CommandError>) -> Result<CommandView, CommandErrorView> {
    match r {
        Ok(c) => Ok(c@),
        Err(e) => Err(e@),
    }
}

/// The index of the first argument, from `i` on, that is not the sqlite
/// option.
pub open spec fn first_non_option(args: Seq<Seq<char>>, i: nat) -> Option<nat>
    decreases args.len() - i,
{
    if i >= args.len() {
        None
    } else if args[i as int] == "--sqlite"@ {
        first_non_option(args, i + 1)
    } else {
        Some(i)
    }
}

/// The subcommands the program knows.
pub open spec fn is_subcommand(s: Seq<char>) -> bool {
    s == "serve"@ || s == "index"@ || s == "search"@
}

/// What a command line (without the program's name) asks for: leading
/// sqlite options, then a subcommand and its arguments, none of which takes
/// the sqlite option.
/// - `serve [address] <folder>`: with one argument it is the folder; with
///   two, the address and then the folder; the index is `index.json`.
/// - `index <folder>`: the index is saved at `index.json`.
/// - `search <index-file>`.
pub open spec fn parse_spec(args: Seq<Seq<char>>) -> Result<CommandView, CommandErrorView> {
    match first_non_option(args, 0) {
        None => Err(CommandErrorView::NoSubcommand),
        Some(k) => {
            let sub = args[k as int];
            if !is_subcommand(sub) {
                Err(CommandErrorView::UnknownSubcommand { subcommand: sub })
            } else if k > 0 {
                Err(CommandErrorView::SqliteNotSupported { subcommand: sub })
            } else if k + 1 >= args.len() {
                Err(CommandErrorView::MissingPath { subcommand: sub })
            } else if sub == "index"@ {
                Ok(CommandView::Index { dir_path: args[k + 1int], index_path: "index.json"@ })
            } else if sub == "search"@ {
                Ok(CommandView::Search { index_path: args[k + 1int] })
            } else if k + 2 < args.len() {
                Ok(
                    CommandView::Serve {
                        dir_path: args[k + 2int],
                        index_path: "index.json"@,
                        address: args[k + 1int],
                    },
                )
            } else {
                Ok(
                    CommandView::Serve {
                        dir_path: args[k + 1int],
                        index_path: "index.json"@,
                        address: "127.0.0.1:6969"@,
                    },
                )
            }
        },
    }
}

/// Reads the command line, the program's name left out.
pub fn parse_arguments(args: &Vec<String>) -> (r: Result<Command, CommandError>)
    ensures
        outcome_view(r) == parse_spec(strings_view(args@)),
{
    let ghost a = strings_view(args@);
    let option = "--sqlite".to_owned();
    let mut i: usize = 0;
    while i < args.len()
        invariant
            i <= args.len(),
            a == strings_view(args@),
            option@ == "--sqlite"@,
            first_non_option(a, 0) == first_non_option(a, i as nat),
        ensures
            i <= args.len(),
            first_non_option(a, 0) == first_non_option(a, i as nat),
            i < args.len() ==> a[i as int] != "--sqlite"@,
        decreases args.len() - i,
    {
        if !(args[i] == option) {
            break ;
        }
        i = i + 1;
    }
    if i >= args.len() {
        return Err(CommandError::NoSubcommand);
    }
    assert(first_non_option(a, i as nat) == Some(i as nat));
    let subcommand = &args[i];
    let is_serve = *subcommand == "serve".to_owned();
    let is_index = *subcommand == "index".to_owned();
    let is_search = *subcommand == "search".to_owned();
    if !(is_serve || is_index || is_search) {
        return Err(CommandError::UnknownSubcommand { subcommand: subcommand.clone() });
    }
    if i > 0 {
        return Err(CommandError::SqliteNotSupported { subcommand: subcommand.clone() });
    }
    if i + 1 >= args.len() {
        return Err(CommandError::MissingPath { subcommand: subcommand.clone() });
    }
    if is_index {
        Ok(Command::Index { dir_path: args[i + 1].clone(), index_path: "index.json".to_owned() })
    } else if is_search {
        Ok(Command::Search { index_path: args[i + 1].clone() })
    } else if i + 2 < args.len() {
        Ok(
            Command::Serve {
                dir_path: args[i + 2].clone(),
                index_path: "index.json".to_owned(),
                address: args[i + 1].clone(),
            },
        )
    } else {
        Ok(
            Command::Serve {
                dir_path: args[i + 1].clone(),
                index_path: "index.json".to_owned(),
                address: "127.0.0.1:6969".to_owned(),
            },
        )
    }
}

} // verus!
