//! The two closed command vocabularies of the system.
//!
//! Browser requests carry an action string; peers on the local socket send
//! one command token per line. Both vocabularies decode totally: an
//! unrecognized string maps to an explicit catch-all variant instead of
//! failing, so unknown future tokens degrade gracefully.

use vstd::prelude::*;

verus! {

/// Actions a browser request can name over the stdio channel.
#[derive(Debug, Clone, Copy, PartialEq, Eq, Structural)]
pub enum BrowserAction {
    Version,
    Colors,
    ThemeMode,
    Invalid,
}

/// The canonical wire string of each browser action.
pub open spec fn action_str(a: BrowserAction) -> Seq<char> {
    match a {
        BrowserAction::Version => "debug:version"@,
        BrowserAction::Colors => "action:colors"@,
        BrowserAction::ThemeMode => "action:theme:mode"@,
        BrowserAction::Invalid => "action:invalid"@,
    }
}

/// Total decoder for action strings: anything that is not one of the
/// canonical strings is `Invalid`.
pub open spec fn decode_action(s: Seq<char>) -> BrowserAction {
    if s == "debug:version"@ {
        BrowserAction::Version
    } else if s == "action:colors"@ {
        BrowserAction::Colors
    } else if s == "action:theme:mode"@ {
        BrowserAction::ThemeMode
    } else {
        BrowserAction::Invalid
    }
}

impl BrowserAction {
    /// The canonical wire string of this action.
    pub fn value(&self) -> (r: &'static str)
        ensures
            r@ == action_str(*self),
    {
        match self {
            BrowserAction::Version => "debug:version",
            BrowserAction::Colors => "action:colors",
            BrowserAction::ThemeMode => "action:theme:mode",
            BrowserAction::Invalid => "action:invalid",
        }
    }

    /// Decode an action string; never fails.
    pub fn from_str(s: &str) -> (r: BrowserAction)
        ensures
            r == decode_action(s@),
    {
        if crate::str_eq(s, "debug:version") {
            BrowserAction::Version
        } else if crate::str_eq(s, "action:colors") {
            BrowserAction::Colors
        } else if crate::str_eq(s, "action:theme:mode") {
            BrowserAction::ThemeMode
        } else {
            BrowserAction::Invalid
        }
    }
}

/// Commands relayed between peers over the Unix socket.
#[derive(Debug, Clone, PartialEq, Eq)]
pub enum SocketCommand {
    Update,
    Auto,
    Dark,
    Light,
    Unknown(String),
}

/// Mathematical model of a socket command; the catch-all keeps the
/// original token.
pub enum CmdView {
    Update,
    Auto,
    Dark,
    Light,
    Unknown(Seq<char>),
}

impl View for SocketCommand {
    type V = CmdView;

    open spec fn view(&self) -> CmdView {
        match self {
            SocketCommand::Update => CmdView::Update,
            SocketCommand::Auto => CmdView::Auto,
            SocketCommand::Dark => CmdView::Dark,
            SocketCommand::Light => CmdView::Light,
            SocketCommand::Unknown(s) => CmdView::Unknown(s@),
        }
    }
}

/// The wire string of each socket command; the catch-all reports itself
/// with a fixed marker.
pub open spec fn cmd_str(c: CmdView) -> Seq<char> {
    match c {
        CmdView::Update => "update"@,
        CmdView::Auto => "auto"@,
        CmdView::Dark => "dark"@,
        CmdView::Light => "light"@,
        CmdView::Unknown(_) => "invalid"@,
    }
}

/// Total decoder for socket command tokens: an unrecognized token becomes
/// `Unknown` carrying the original string.
pub open spec fn decode_cmd(s: Seq<char>) -> CmdView {
    if s == "update"@ {
        CmdView::Update
    } else if s == "auto"@ {
        CmdView::Auto
    } else if s == "dark"@ {
        CmdView::Dark
    } else if s == "light"@ {
        CmdView::Light
    } else {
        CmdView::Unknown(s)
    }
}

impl SocketCommand {
    /// The wire string of this command.
    pub fn value(&self) -> (r: &'static str)
        ensures
            r@ == cmd_str(self@),
    {
        match self {
            SocketCommand::Update => "update",
            SocketCommand::Auto => "auto",
            SocketCommand::Dark => "dark",
            SocketCommand::Light => "light",
            SocketCommand::Unknown(_) => "invalid",
        }
    }

    /// Decode a socket command token; never fails.
    pub fn from_str(s: &str) -> (r: SocketCommand)
        ensures
            r@ == decode_cmd(s@),
    {
        if crate::str_eq(s, "update") {
            SocketCommand::Update
        } else if crate::str_eq(s, "auto") {
            SocketCommand::Auto
        } else if crate::str_eq(s, "dark") {
            SocketCommand::Dark
        } else if crate::str_eq(s, "light") {
            SocketCommand::Light
        } else {
            SocketCommand::Unknown(s.to_owned())
        }
    }
}

} // verus!
