//! Parameters shared by the client and the server, and the errors that
//! configuration can raise before any socket is opened.

use vstd::prelude::*;

verus! {

/// Network parameters every participant agrees on: servers bind the
/// well-known port, and everyone joins the same multicast group. The
/// group address is held as its 32-bit big-endian value
/// (`0xe1646362` is 225.100.99.98).
#[derive(Clone, Copy, Debug)]
pub struct Params {
    pub server_port: u16,
    pub multicast_addr: u32,
}

impl Default for Params {
    fn default() -> (r: Params)
        ensures
            r.server_port == 9040,
            r.multicast_addr == 0xe1646362,
    {
        Params { server_port: 9040, multicast_addr: 0xe1646362 }
    }
}

/// Errors of command-line argument handling.
#[derive(Debug)]
pub enum CliArgError {
    /// A flag that takes a value came last, with no value after it.
    MissingArgumentValue(String),
    /// No subcommand was given at all.
    MissingSubcommand,
    /// A required positional argument was never given; carries its name.
    MissingRequiredArg(String),
    /// The first argument names no known subcommand.
    UnknownSubcommand(String),
    /// A flag that this subcommand does not know.
    UnrecognizedArgument(String),
}

/// Ghost form of a command-line error.
pub enum CliArgErrorView {
    MissingArgumentValue(Seq<char>),
    MissingSubcommand,
    MissingRequiredArg(Seq<char>),
    UnknownSubcommand(Seq<char>),
    UnrecognizedArgument(Seq<char>),
}

impl View for CliArgError {
    type V = CliArgErrorView;

    open spec fn view(&self) -> CliArgErrorView {
        match self {
            CliArgError::MissingArgumentValue(s) => CliArgErrorView::MissingArgumentValue(s@),
            CliArgError::MissingSubcommand => CliArgErrorView::MissingSubcommand,
            CliArgError::MissingRequiredArg(s) => CliArgErrorView::MissingRequiredArg(s@),
            CliArgError::UnknownSubcommand(s) => CliArgErrorView::UnknownSubcommand(s@),
            CliArgError::UnrecognizedArgument(s) => CliArgErrorView::UnrecognizedArgument(s@),
        }
    }
}

/// Errors of client or server configuration, surfaced to the caller as a
/// startup failure before any socket is opened.
#[derive(Debug)]
pub enum ConfigError {
    Cli(CliArgError),
    /// A bind address that is not a dotted-quad IPv4 address.
    BadAddress(String),
    /// A numeric flag value that is not a decimal number within range.
    BadNumber(String),
}

/// Ghost form of a configuration error.
pub enum ConfigErrorView {
    Cli(CliArgErrorView),
    BadAddress(Seq<char>),
    BadNumber(Seq<char>),
}

impl View for ConfigError {
    type V = ConfigErrorView;

    open spec fn view(&self) -> ConfigErrorView {
        match self {
            ConfigError::Cli(e) => ConfigErrorView::Cli(e@),
            ConfigError::BadAddress(s) => ConfigErrorView::BadAddress(s@),
            ConfigError::BadNumber(s) => ConfigErrorView::BadNumber(s@),
        }
    }
}

} // verus!
