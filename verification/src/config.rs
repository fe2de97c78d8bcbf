//! Configuration data for the application: timing of the redraw tick and
//! the look of the rendered table.
//!
//! Reading the configuration file is I/O and happens outside the library;
//! these types only carry the values and pin down the defaults.

use vstd::prelude::*;

verus! {

/// Settings that drive the main loop.
pub struct TerminalConfig {
    /// The delay in milliseconds between terminal updates.
    pub tick_delay: usize,
}

/// Which side a table cell's text is padded towards.
#[derive(Clone, Copy, PartialEq, Eq, Structural, Debug)]
pub enum Alignment {
    Left,
    Right,
    Center,
}

/// Settings that decide how the table looks.
pub struct FrontendConfig {
    /// The format of the date and time outputs.
    pub time_format: String,
    /// Which side the information should be aligned to.
    pub alignment: Alignment,
    /// The amount of padding that the main window should have.
    pub padding: u16,
}

/// The whole configuration.
pub struct CompleteConfig {
    /// Internal functionality.
    pub terminal: TerminalConfig,
    /// How everything looks to the user.
    pub frontend: FrontendConfig,
}

impl Default for TerminalConfig {
    fn default() -> (r: Self)
        ensures
            r.tick_delay == 30,
    {
        TerminalConfig { tick_delay: 30 }
    }
}

impl Default for Alignment {
    fn default() -> (r: Self)
        ensures
            r == Alignment::Right,
    {
        Alignment::Right
    }
}

impl Default for FrontendConfig {
    fn default() -> (r: Self)
        ensures
            r.time_format@ == "%c"@,
            r.alignment == Alignment::Right,
            r.padding == 0,
    {
        FrontendConfig { time_format: "%c".to_owned(), alignment: Alignment::Right, padding: 0 }
    }
}

impl Default for CompleteConfig {
    fn default() -> (r: Self)
        ensures
            r.terminal.tick_delay == 30,
            r.frontend.time_format@ == "%c"@,
            r.frontend.alignment == Alignment::Right,
            r.frontend.padding == 0,
    {
        CompleteConfig { terminal: TerminalConfig::default(), frontend: FrontendConfig::default() }
    }
}

} // verus!
