//! The settings of an identity and of the application.

use vstd::prelude::*;

verus! {

/// The settings of one server identity.
#[derive(Clone)]
pub struct Config {
    pub name: String,
    pub port: u16,
    pub font_size: u8,
    pub notify_target: String,
    pub accept_transfers: bool,
    pub transfer_from: String,
    pub auto_bump_serial: bool,
}

/// Settings shared by all identities.
#[derive(Clone, Copy)]
pub struct AppConfig {
    pub font_size: u8,
}

/// The font size used when none is configured.
pub fn default_font_size() -> (r: u8)
    ensures
        r == 16,
{
    16
}

/// The value of flags that are on unless configured.
pub fn default_true() -> (r: bool)
    ensures
        r,
{
    true
}

impl Default for Config {
    /// No name, port 1053, font size 16, no NOTIFY target, no transfers in,
    /// automatic serial bumping on.
    fn default() -> (r: Self)
        ensures
            r.name@.len() == 0,
            r.port == 1053,
            r.font_size == 16,
            r.notify_target@.len() == 0,
            !r.accept_transfers,
            r.transfer_from@.len() == 0,
            r.auto_bump_serial,
    {
        Config {
            name: String::new(),
            port: 1053,
            font_size: default_font_size(),
            notify_target: String::new(),
            accept_transfers: false,
            transfer_from: String::new(),
            auto_bump_serial: default_true(),
        }
    }
}

impl Default for AppConfig {
    /// Font size 16.
    fn default() -> (r: Self)
        ensures
            r.font_size == 16,
    {
        AppConfig { font_size: default_font_size() }
    }
}

} // verus!
