//! Settings of the program.

use vstd::prelude::*;
use vstd::string::*;
use crate::agent::AgentType;
use crate::text;

verus! {

/// How the program looks.
#[derive(Clone, Copy, PartialEq, Eq, Structural, Debug)]
pub enum ThemeMode {
    Dark,
    Light,
}

/// How the program looks.
#[derive(Clone, Copy, PartialEq, Eq, Structural, Debug)]
pub struct ThemeConfig {
    pub mode: ThemeMode,
}

/// The settings.
#[derive(Clone, PartialEq, Eq, Debug)]
pub struct AppConfig {
    pub rivet_port: u16,
    pub data_dir: String,
    pub theme: ThemeConfig,
}

impl AppConfig {
    /// The settings of a first start; `base` is where the host keeps the data
    /// of programs, if it has such a place.
    pub fn initial(base: Option<&str>) -> (r: Self)
        ensures
            r.rivet_port == 6420,
            r.data_dir@ == text::path_in(
                match base {
                    Some(b) => b@,
                    None => "."@,
                },
                "cuartel"@,
            ),
            r.theme.mode is Dark,
    {
        let dir = match base {
            Some(b) => b,
            None => ".",
        };
        AppConfig {
            rivet_port: 6420,
            data_dir: text::join_path(dir, "cuartel"),
            theme: ThemeConfig { mode: ThemeMode::Dark },
        }
    }
}

/// What was chosen at the first start.
#[derive(Clone, PartialEq, Eq, Debug)]
pub struct OnboardingConfig {
    /// The agent that new sessions run.
    pub default_harness: Option<AgentType>,
    /// Whether the choices are made.
    pub completed: bool,
}

impl Default for OnboardingConfig {
    fn default() -> (r: Self)
        ensures
            r.default_harness is None,
            !r.completed,
    {
        OnboardingConfig { default_harness: None, completed: false }
    }
}

impl OnboardingConfig {
    /// The file that keeps the choices.
    pub fn path(data_dir: &str) -> (r: String)
        ensures
            r@ == text::path_in(data_dir@, "onboarding.json"@),
    {
        text::join_path(data_dir, "onboarding.json")
    }
}

} // verus!
