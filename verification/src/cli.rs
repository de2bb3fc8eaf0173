//! The command line of the bot program.
use vstd::prelude::*;
use crate::context::{target_view, MessageTarget};

verus! {

/// The parsed command line.
pub struct Cli {
    /// Log verbosity (-v, -vv, -vvv)
    pub verbose: u8,
    pub command: Command,
}

pub enum Command {
    /// Start the bot using a configuration file
    Run { config: std::path::PathBuf },
    /// Start the signal-cli daemon using settings from config
    Daemon { config: std::path::PathBuf },
    /// Send a one-off message
    Send { socket: String, recipient: Option<String>, group: Option<String>, message: String },
    /// Manage groups
    Groups { socket: String, subcommand: GroupsCommand },
    /// Show version information
    Version,
}

pub enum GroupsCommand {
    /// List all groups
    List,
}

/// Where a one-off message goes: the recipient when one is given, else the
/// group; nowhere when neither is.
pub fn send_target(recipient: &Option<String>, group: &Option<String>) -> (t: Option<
    MessageTarget,
>)
    ensures
        match recipient {
            Some(r) => t matches Some(x) && target_view(x) == (false, r@),
            None => match group {
                Some(g) => t matches Some(x) && target_view(x) == (true, g@),
                None => t is None,
            },
        },
{
    match recipient {
        Some(r) => Some(MessageTarget::Recipient(r.clone())),
        None => match group {
            Some(g) => Some(MessageTarget::Group(g.clone())),
            None => None,
        },
    }
}

} // verus!
