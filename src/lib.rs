use vstd::prelude::*;

pub mod bump;
pub mod graph;
pub mod ledger;
pub mod project;
pub mod propagate;
pub mod version;

verus! {

/// The version of this library.
pub const VERSION: &'static str = "0.1.0";

/// What the tool says of itself when called without a command.
pub const TAGLINE: &'static str = "changement - Manage versioning and publishing for packages in your project";

/// The list of commands.
pub const HELP: &'static str = "changement - Manage versioning and publishing for packages in your project\n\nCommands:\n  init     Initialize changement in a new project\n  new      Create a new change for a package\n  version  Apply all changes and update package versions\n  publish  Publish packages to registry\n  tag      Create git tags for current versions";

pub open spec fn args_view(args: Seq<String>) -> Seq<Seq<char>> {
    args.map_values(|a: String| a@)
}

/// The reply to a command line: the tagline for none, the version for
/// `version`, the list of commands for `help`, `--help` or `-h`, and a
/// pointer to that list for anything else.
pub open spec fn reply(args: Seq<Seq<char>>) -> Seq<char> {
    if args.len() == 0 {
        TAGLINE@
    } else if args[0] == "version"@ {
        VERSION@
    } else if args[0] == "help"@ || args[0] == "--help"@ || args[0] == "-h"@ {
        HELP@
    } else {
        "Unknown command: "@ + args[0] + ". Use 'changement help' for available commands."@
    }
}

/// The version of this library.
pub fn get_version() -> (r: String)
    ensures
        r@ == VERSION@,
{
    String::from_str(VERSION)
}

/// Answers a command line with a message.
pub fn changement_main(args: Vec<String>) -> (r: String)
    ensures
        r@ == reply(args_view(args@)),
{
    if args.len() == 0 {
        return String::from_str(TAGLINE);
    }
    let command = &args[0];
    assert(command@ == args_view(args@)[0]);
    if *command == String::from_str("version") {
        get_version()
    } else if *command == String::from_str("help") || *command == String::from_str("--help")
        || *command == String::from_str("-h") {
        String::from_str(HELP)
    } else {
        let mut out = String::from_str("Unknown command: ");
        out.append(command.as_str());
        out.append(". Use 'changement help' for available commands.");
        out
    }
}

pub open spec fn init_message() -> Seq<char> {
    "Initializing changement..."@
}

/// The message shown when a project is set up.
pub fn init() -> (r: String)
    ensures
        r@ == init_message(),
{
    String::from_str("Initializing changement...")
}

/// The message shown when a change is recorded.
pub fn new_change(package: String, message: String, bump: String) -> (r: String)
    ensures
        r@ == "Creating new "@ + bump@ + " change for package '"@ + package@ + "': "@ + message@,
{
    let mut out = String::from_str("Creating new ");
    out.append(bump.as_str());
    out.append(" change for package '");
    out.append(package.as_str());
    out.append("': ");
    out.append(message.as_str());
    out
}

} // verus!
