//! What each command does to a machine once its text has been read.
use crate::computer::{parse_spec, run_spec, step_spec, zeroed, Computer, Machine};
use crate::token::Error;
use vstd::prelude::*;

verus! {

/// The commands of the command-line tool.
#[derive(Clone, Copy, Debug, PartialEq, Eq, Structural)]
pub enum Subcommand {
    /// A zeroed machine.
    Init,
    /// The machine that a text describes.
    Load,
    /// That machine, run until it halts.
    Run,
    /// That machine, after one step.
    Step,
}

/// The machine a command yields from the text of its input.
pub open spec fn outcome(cmd: Subcommand, src: Seq<char>, max_steps: nat) -> Result<Machine, Error> {
    match cmd {
        Subcommand::Init => Ok(zeroed()),
        _ => match parse_spec(src) {
            Err(e) => Err(e),
            Ok(m) => match cmd {
                Subcommand::Run => match run_spec(m, max_steps).1 {
                    Ok(()) => Ok(run_spec(m, max_steps).0),
                    Err(e) => Err(e),
                },
                Subcommand::Step => step_spec(m),
                _ => Ok(m),
            },
        },
    }
}

impl Subcommand {
    /// The machine described by the text of a file.
    pub fn load(src: &str) -> (r: Result<Computer, Error>)
        ensures
            match r {
                Ok(c) => parse_spec(src@) == Ok::<Machine, Error>(c@),
                Err(e) => parse_spec(src@) == Err::<Machine, Error>(e),
            },
    {
        Computer::parse(src)
    }

    /// Carries out the command on the text `src` of its input (unused by
    /// `Init`); `Run` takes at most `max_steps` steps.
    pub fn run(self, src: &str, max_steps: usize) -> (r: Result<Computer, Error>)
        ensures
            match r {
                Ok(c) => outcome(self, src@, max_steps as nat) == Ok::<Machine, Error>(c@),
                Err(e) => outcome(self, src@, max_steps as nat) == Err::<Machine, Error>(e),
            },
    {
        match self {
            Subcommand::Init => Ok(Computer::new()),
            Subcommand::Load => Subcommand::load(src),
            Subcommand::Run => {
                let mut computer = Subcommand::load(src)?;
                match computer.run(max_steps) {
                    Ok(()) => Ok(computer),
                    Err(e) => Err(e),
                }
            },
            Subcommand::Step => {
                let mut computer = Subcommand::load(src)?;
                match computer.step() {
                    Ok(()) => Ok(computer),
                    Err(e) => Err(e),
                }
            },
        }
    }
}

} // verus!
