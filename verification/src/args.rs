//! The command line of the console tool, as plain values.

use vstd::prelude::*;

verus! {

/// Options of the console tool.
#[derive(Debug, Clone)]
pub struct ArgCommands {
    /// The serial port to open.
    pub target: String,
    /// The baud rate, when one was given.
    pub baud_rate: Option<u32>,
    /// What the tool does once the port is open.
    pub mode: ArgMode,
    /// Echo every frame that is sent.
    pub verbose: bool,
    /// Clear the screen first.
    pub clear_screen: bool,
}

/// The tool's modes of operation.
#[derive(Debug, Clone)]
pub enum ArgMode {
    /// Send each line read from the terminal.
    Interactive,
    /// Send `command` again every `interval` milliseconds.
    Loopshot { interval: u64, command: String },
    /// Send `command` once.
    Oneshot { command: String },
}

impl ArgMode {
    /// The interval and command of the repeating mode, `None` for any other mode.
    pub fn loopshot_parts(self) -> (r: Option<(u64, String)>)
        ensures
            r == (match self {
                ArgMode::Loopshot { interval, command } => Some((interval, command)),
                _ => None::<(u64, String)>,
            }),
    {
        match self {
            ArgMode::Loopshot { interval, command } => Some((interval, command)),
            _ => None,
        }
    }
}

} // verus!
