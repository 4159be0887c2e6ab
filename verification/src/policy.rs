//! Gates: named checks a candidate must pass, and their outcomes.

use vstd::prelude::*;

use crate::frontier::FrontierStrategy;
use crate::keyed::DeepClone;
use crate::outcome::Metric;
use crate::text::{chars_of, string_of, trim, trim_chars};

verus! {

/// When a gate runs relative to the trial.
#[derive(Clone, Copy, Debug, PartialEq, Eq, Structural)]
pub enum GatePhase {
    Pre,
    Post,
}

impl Default for GatePhase {
    fn default() -> (r: Self)
        ensures
            r == GatePhase::Post,
    {
        GatePhase::Post
    }
}

/// A named command that a candidate must pass.
#[derive(Debug, PartialEq, Eq)]
pub struct Gate {
    pub name: String,
    pub command: String,
    pub phase: GatePhase,
}

/// The view of a [`Gate`].
pub struct GateV {
    pub name: Seq<char>,
    pub command: Seq<char>,
    pub phase: GatePhase,
}

impl DeepView for Gate {
    type V = GateV;

    open spec fn deep_view(&self) -> GateV {
        GateV { name: self.name@, command: self.command@, phase: self.phase }
    }
}

impl DeepClone for Gate {
    fn deep_clone(&self) -> (r: Self) {
        Gate { name: self.name.clone(), command: self.command.clone(), phase: self.phase }
    }
}

impl Gate {
    /// A gate run after the trial.
    pub fn new(name: &str, command: &str) -> (r: Self)
        ensures
            r.name@ == name@,
            r.command@ == command@,
            r.phase == GatePhase::Post,
    {
        Gate { name: name.to_owned(), command: command.to_owned(), phase: GatePhase::Post }
    }

    /// A gate run before the trial.
    pub fn pre(name: &str, command: &str) -> (r: Self)
        ensures
            r.name@ == name@,
            r.command@ == command@,
            r.phase == GatePhase::Pre,
    {
        Gate { name: name.to_owned(), command: command.to_owned(), phase: GatePhase::Pre }
    }
}

/// The result of running a gate.
#[derive(Debug, PartialEq, Eq)]
pub struct GateOutcome {
    pub name: String,
    pub phase: GatePhase,
    pub passed: bool,
    pub exit_code: Option<i32>,
    pub output_snippet: String,
}

/// Why a `name=command` gate text was refused.
#[derive(Clone, Copy, Debug, PartialEq, Eq, Structural)]
pub enum GateParseError {
    /// The text has no `=`.
    MissingSeparator,
    /// The name or the command is empty after trimming.
    EmptyPart,
}

impl GateParseError {
    /// The error's message.
    pub fn message(&self) -> (r: &'static str)
        ensures
            r@ == match *self {
                GateParseError::MissingSeparator => "gate must be name=command"@,
                GateParseError::EmptyPart => "gate must include a non-empty name and command"@,
            },
    {
        match self {
            GateParseError::MissingSeparator => "gate must be name=command",
            GateParseError::EmptyPart => "gate must include a non-empty name and command",
        }
    }
}

/// The position of the first `c` in `s`.
pub open spec fn first_index(s: Seq<char>, c: char) -> Option<int> {
    if exists|i: int| 0 <= i < s.len() && s[i] == c {
        Some(choose|i: int| 0 <= i < s.len() && s[i] == c && forall|j: int| 0 <= j < i ==> s[j] != c)
    } else {
        None
    }
}

/// What `value` describes as `name=command`: split at the first
/// `=`, both sides trimmed; an error when there is no `=` or a side is empty.
pub open spec fn parse_gate_spec(value: Seq<char>) -> Result<(Seq<char>, Seq<char>), GateParseError> {
    match first_index(value, '=') {
        None => Err(GateParseError::MissingSeparator),
        Some(i) => {
            let name = trim(value.subrange(0, i));
            let command = trim(value.subrange(i + 1, value.len() as int));
            if name.len() == 0 || command.len() == 0 {
                Err(GateParseError::EmptyPart)
            } else {
                Ok((name, command))
            }
        },
    }
}

/// Splits `value` at its first `=` (the two sides, untrimmed).
pub fn split_first_eq(value: &str) -> (r: Option<(Vec<char>, Vec<char>)>)
    ensures
        match r {
            Some((a, b)) => first_index(value@, '=') matches Some(i) && a@ == value@.subrange(0, i) && b@
                == value@.subrange(i + 1, value@.len() as int),
            None => first_index(value@, '=') is None,
        },
{
    let cs = chars_of(value);
    split_first_at(&cs, '=')
}

/// Splits `cs` at its first `c` (the two sides, without that `c`).
pub fn split_first_at(cs: &Vec<char>, c: char) -> (r: Option<(Vec<char>, Vec<char>)>)
    ensures
        match r {
            Some((a, b)) => first_index(cs@, c) matches Some(i) && a@ == cs@.subrange(0, i) && b@
                == cs@.subrange(i + 1, cs@.len() as int),
            None => first_index(cs@, c) is None,
        },
{
    let mut i: usize = 0;
    while i < cs.len() && cs[i] != c
        invariant
            i <= cs.len(),
            forall|j: int| 0 <= j < i ==> cs@[j] != c,
        decreases cs.len() - i,
    {
        i = i + 1;
    }
    if i == cs.len() {
        return None;
    }
    proof {
        let k = first_index(cs@, c).unwrap();
        if k < i {
        } else if k > i {
        }
        assert(k == i);
    }
    let mut left: Vec<char> = Vec::new();
    let mut j: usize = 0;
    while j < i
        invariant
            j <= i < cs.len(),
            left@ == cs@.subrange(0, j as int),
        decreases i - j,
    {
        left.push(cs[j]);
        j = j + 1;
        assert(left@ =~= cs@.subrange(0, j as int));
    }
    let mut right: Vec<char> = Vec::new();
    let mut k: usize = i + 1;
    while k < cs.len()
        invariant
            i + 1 <= k <= cs.len(),
            right@ == cs@.subrange(i + 1, k as int),
        decreases cs.len() - k,
    {
        right.push(cs[k]);
        k = k + 1;
        assert(right@ =~= cs@.subrange(i + 1, k as int));
    }
    Some((left, right))
}

/// Parses a `name=command` gate, run after the trial.
pub fn parse_gate(value: &str) -> (r: Result<Gate, GateParseError>)
    ensures
        match parse_gate_spec(value@) {
            Ok((name, command)) => r matches Ok(g) && g.name@ == name && g.command@ == command
                && g.phase == GatePhase::Post,
            Err(e) => r == Err::<Gate, GateParseError>(e),
        },
{
    let (left, right) = match split_first_eq(value) {
        Some(parts) => parts,
        None => {
            return Err(GateParseError::MissingSeparator);
        },
    };
    let name = trim_chars(&left);
    let command = trim_chars(&right);
    if name.len() == 0 || command.len() == 0 {
        return Err(GateParseError::EmptyPart);
    }
    Ok(Gate { name: string_of(&name), command: string_of(&command), phase: GatePhase::Post })
}

/// What a research run is held to: its metric, how the frontier is ranked,
/// the gates every candidate must pass, and how many attempts it gets.
pub struct ResearchPolicy {
    pub metric: Metric,
    pub frontier_strategy: FrontierStrategy,
    pub gates: Vec<Gate>,
    pub max_attempts: u32,
}

impl ResearchPolicy {
    /// A policy for `metric`: the default strategy, no gates, three attempts.
    pub fn new(metric: Metric) -> (r: Self)
        ensures
            r.metric == metric,
            r.frontier_strategy == (FrontierStrategy::TopK { k: 5 }),
            r.gates@.len() == 0,
            r.max_attempts == 3,
    {
        ResearchPolicy { metric, frontier_strategy: FrontierStrategy::default(), gates: Vec::new(), max_attempts: 3 }
    }

    /// The same policy with `gate` added after its gates.
    pub fn with_gate(self, gate: Gate) -> (r: Self)
        ensures
            r.gates@ == self.gates@.push(gate),
            r.metric == self.metric,
            r.frontier_strategy == self.frontier_strategy,
            r.max_attempts == self.max_attempts,
    {
        let mut p = self;
        p.gates.push(gate);
        p
    }
}

} // verus!
