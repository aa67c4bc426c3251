//! What the engine answers with each turn.
use vstd::prelude::*;
use vstd::std_specs::cmp::PartialEqSpecImpl;

verus! {

#[derive(Debug, Copy, Clone, PartialOrd, Ord)]
pub enum Command {
    /// Drop the piece: `(column, rotation)`.
    Drop((usize, usize)),
    /// Cast the spell.
    Spell,
}

impl Command {
    /// The fallback when nothing better is known: drop on the first column,
    /// unrotated.
    pub fn default() -> (r: Command)
        ensures
            r == Command::Drop((0usize, 0usize)),
    {
        Command::Drop((0, 0))
    }
}

impl PartialEq for Command {
    fn eq(&self, other: &Command) -> (r: bool) {
        match (self, other) {
            (Command::Drop(a), Command::Drop(b)) => a.0 == b.0 && a.1 == b.1,
            (Command::Spell, Command::Spell) => true,
            _ => false,
        }
    }
}

impl PartialEqSpecImpl for Command {
    open spec fn obeys_eq_spec() -> bool {
        true
    }

    open spec fn eq_spec(&self, other: &Command) -> bool {
        *self == *other
    }
}

impl Eq for Command {

}

} // verus!
