//! The settings of a game, and the commands of the moderator.

use vstd::prelude::*;

verus! {

/// The least number of empires that a game can have.
pub const MIN_EMPIRES: u32 = 2;

/// The settings of a game.
#[derive(Debug, Clone)]
pub struct Config {
    pub host_name: String,
    pub game_name: String,
    pub server_ip: String,
    pub port: String,
    pub num_empires: u32,
}

/// Why settings cannot be used.
#[derive(Debug, Clone, Copy, PartialEq, Eq, Structural)]
pub enum ConfigError {
    /// The settings name `found` empires, fewer than two.
    TooFewEmpires { found: u32 },
}

impl Config {
    /// Accepts settings with at least two empires.
    pub fn validate(&self) -> (outcome: Result<(), ConfigError>)
        ensures
            outcome == (if self.num_empires < MIN_EMPIRES {
                Err::<(), ConfigError>(ConfigError::TooFewEmpires { found: self.num_empires })
            } else {
                Ok(())
            }),
    {
        if self.num_empires < MIN_EMPIRES {
            Err(ConfigError::TooFewEmpires { found: self.num_empires })
        } else {
            Ok(())
        }
    }
}

/// What the moderator was asked to do.
#[derive(Debug, Clone, Copy, PartialEq, Eq, Structural)]
pub enum Command {
    New,
    Start,
    Maint,
    Stats,
}

/// What the moderator does about a command.
#[derive(Debug, Clone, Copy, PartialEq, Eq, Structural)]
pub enum Step {
    /// Set up a new game and its galaxy.
    CreateGame,
    /// Nothing yet.
    Nothing,
}

/// Picks what to do about a command: only `New` starts anything.
pub fn parse_args(command: Command) -> (step: Step)
    ensures
        step == (if command == Command::New {
            Step::CreateGame
        } else {
            Step::Nothing
        }),
{
    match command {
        Command::New => Step::CreateGame,
        Command::Start => Step::Nothing,
        Command::Maint => Step::Nothing,
        Command::Stats => Step::Nothing,
    }
}

} // verus!
