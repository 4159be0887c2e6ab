//! What the command line's arguments mean: acceptance and strategy choices,
//! `key=value` metadata, and the evaluation server's URL.

use vstd::prelude::*;

use crate::acceptance::AcceptanceCriterion;
use crate::frontier::FrontierStrategy;
use crate::json::{json_parse, parse_json, Json};
use crate::outcome::MetricDirection;
use crate::pareto::FrontierType;
use crate::policy::{first_index, split_first_at, split_first_eq};
use crate::text::{chars_of, push_str, str_eq, string_of, trim, trim_chars};

verus! {

/// The acceptance gate chosen on the command line.
#[derive(Clone, Copy, Debug, PartialEq, Eq, Structural)]
pub enum AcceptanceArg {
    Strict,
    OrEqual,
    Off,
}

impl AcceptanceArg {
    /// The criterion chosen: strict improvement, improvement or equal, or
    /// none.
    pub fn into_criterion(self) -> (r: Option<AcceptanceCriterion>)
        ensures
            r == match self {
                AcceptanceArg::Strict => Some(AcceptanceCriterion::StrictImprovement),
                AcceptanceArg::OrEqual => Some(AcceptanceCriterion::ImprovementOrEqual),
                AcceptanceArg::Off => None::<AcceptanceCriterion>,
            },
    {
        match self {
            AcceptanceArg::Strict => Some(AcceptanceCriterion::StrictImprovement),
            AcceptanceArg::OrEqual => Some(AcceptanceCriterion::ImprovementOrEqual),
            AcceptanceArg::Off => None,
        }
    }
}

/// The frontier strategy chosen on the command line.
#[derive(Clone, Copy, Debug, PartialEq, Eq, Structural)]
pub enum StrategyArg {
    ArgMax,
    TopK,
    EpsilonGreedy,
    Softmax,
    ParetoPerTask,
    Pareto,
}

impl StrategyArg {
    /// The strategy chosen, with its parameters (floating-point ones as
    /// `f64::to_bits` patterns, the task floor as a score code); a Pareto
    /// ranking starts with no objectives of its own.
    pub fn into_strategy(
        self,
        k: usize,
        epsilon_bits: u64,
        temperature_bits: u64,
        seed: u64,
        task_floor: i64,
        frontier_type: FrontierType,
    ) -> (r: FrontierStrategy)
        ensures
            match self {
                StrategyArg::ArgMax => r == FrontierStrategy::ArgMax,
                StrategyArg::TopK => r == (FrontierStrategy::TopK { k }),
                StrategyArg::EpsilonGreedy => r == (FrontierStrategy::EpsilonGreedy { epsilon_bits, seed }),
                StrategyArg::Softmax => r == (FrontierStrategy::Softmax { temperature_bits, k, seed }),
                StrategyArg::ParetoPerTask => r == (FrontierStrategy::ParetoPerTask { k, task_floor }),
                StrategyArg::Pareto => r matches FrontierStrategy::Pareto { frontier_type: t, objectives: o } && t
                    == frontier_type && o@.len() == 0,
            },
    {
        match self {
            StrategyArg::ArgMax => FrontierStrategy::ArgMax,
            StrategyArg::TopK => FrontierStrategy::TopK { k },
            StrategyArg::EpsilonGreedy => FrontierStrategy::EpsilonGreedy { epsilon_bits, seed },
            StrategyArg::Softmax => FrontierStrategy::Softmax { temperature_bits, k, seed },
            StrategyArg::ParetoPerTask => FrontierStrategy::ParetoPerTask { k, task_floor },
            StrategyArg::Pareto => FrontierStrategy::Pareto { frontier_type, objectives: Vec::new() },
        }
    }
}

/// Why a `task_id=score[:maximize|minimize]` argument was refused (its score
/// is read as a floating-point number by the caller).
#[derive(Debug, PartialEq, Eq)]
pub enum TaskScoreError {
    /// There is no `=`, or a `:` follows the direction.
    Malformed,
    /// The direction is none of `maximize`, `max`, `minimize` and `min`.
    UnknownDirection(String),
}

impl TaskScoreError {
    /// The error's message.
    pub fn message(&self) -> (r: String)
        ensures
            r@ == match *self {
                TaskScoreError::Malformed => "task score must be task_id=score[:maximize|minimize]"@,
                TaskScoreError::UnknownDirection(w) => "unknown task score direction: "@ + w@,
            },
    {
        match self {
            TaskScoreError::Malformed => String::from_str("task score must be task_id=score[:maximize|minimize]"),
            TaskScoreError::UnknownDirection(w) => {
                let mut out = String::from_str("unknown task score direction: ");
                push_str(&mut out, w.as_str());
                out
            },
        }
    }
}

/// The direction a task score names: `maximize` or `max`, `minimize` or `min`.
pub open spec fn direction_word(w: Seq<char>) -> Option<MetricDirection> {
    if w == "maximize"@ || w == "max"@ {
        Some(MetricDirection::Maximize)
    } else if w == "minimize"@ || w == "min"@ {
        Some(MetricDirection::Minimize)
    } else {
        None
    }
}

/// The direction that `tail` (what follows the score's `:`) gives: its part up
/// to any further `:` must name a direction, and no further `:` may follow.
pub open spec fn direction_tail_ok(tail: Seq<char>, d: Result<Option<MetricDirection>, TaskScoreError>) -> bool {
    let word = match first_index(tail, ':') {
        None => tail,
        Some(k) => tail.subrange(0, k),
    };
    match direction_word(word) {
        None => d matches Err(TaskScoreError::UnknownDirection(w)) && w@ == word,
        Some(dir) => if first_index(tail, ':') is Some {
            d matches Err(TaskScoreError::Malformed)
        } else {
            d == Ok::<Option<MetricDirection>, TaskScoreError>(Some(dir))
        },
    }
}

/// The parts of a task score argument.
pub struct TaskScoreFields {
    /// The task id, trimmed.
    pub task_id: String,
    /// The text of the score, untrimmed.
    pub score_text: String,
    /// The direction given, if any, or why it was refused.
    pub direction: Result<Option<MetricDirection>, TaskScoreError>,
}

/// Splits a `task_id=score[:maximize|minimize]` argument: the id is what
/// precedes the first `=`, trimmed; the score is what follows it, up to the
/// first `:`; a direction word may follow that `:`, and nothing after it.
pub fn task_score_fields(value: &str) -> (r: Result<TaskScoreFields, TaskScoreError>)
    ensures
        match first_index(value@, '=') {
            None => r matches Err(TaskScoreError::Malformed),
            Some(i) => r matches Ok(f) && f.task_id@ == trim(value@.subrange(0, i)) && {
                let rest = value@.subrange(i + 1, value@.len() as int);
                match first_index(rest, ':') {
                    None => f.score_text@ == rest && f.direction == Ok::<Option<MetricDirection>, TaskScoreError>(None),
                    Some(j) => f.score_text@ == rest.subrange(0, j) && direction_tail_ok(
                        rest.subrange(j + 1, rest.len() as int),
                        f.direction,
                    ),
                }
            },
        },
{
    let cs = chars_of(value);
    let (left, rest) = match split_first_at(&cs, '=') {
        Some(parts) => parts,
        None => {
            return Err(TaskScoreError::Malformed);
        },
    };
    let task_id = string_of(&trim_chars(&left));
    match split_first_at(&rest, ':') {
        None => Ok(TaskScoreFields { task_id, score_text: string_of(&rest), direction: Ok(None) }),
        Some((score, tail)) => {
            let (word, more) = match split_first_at(&tail, ':') {
                Some((w, _)) => (w, true),
                None => (tail, false),
            };
            let w = string_of(&word);
            let direction = if str_eq(w.as_str(), "maximize") || str_eq(w.as_str(), "max") {
                if more {
                    Err(TaskScoreError::Malformed)
                } else {
                    Ok(Some(MetricDirection::Maximize))
                }
            } else if str_eq(w.as_str(), "minimize") || str_eq(w.as_str(), "min") {
                if more {
                    Err(TaskScoreError::Malformed)
                } else {
                    Ok(Some(MetricDirection::Minimize))
                }
            } else {
                Err(TaskScoreError::UnknownDirection(w))
            };
            Ok(TaskScoreFields { task_id, score_text: string_of(&score), direction })
        },
    }
}

/// Why a `key=value` metadata argument was refused.
#[derive(Clone, Copy, Debug, PartialEq, Eq, Structural)]
pub enum MetadataError {
    /// There is no `=`.
    MissingSeparator,
    /// The key is blank.
    EmptyKey,
}

impl MetadataError {
    /// The error's message.
    pub fn message(&self) -> (r: &'static str)
        ensures
            r@ == match *self {
                MetadataError::MissingSeparator => "metadata must be key=value"@,
                MetadataError::EmptyKey => "metadata key cannot be empty"@,
            },
    {
        match self {
            MetadataError::MissingSeparator => "metadata must be key=value",
            MetadataError::EmptyKey => "metadata key cannot be empty",
        }
    }
}

/// What a `key=value` metadata argument means: the trimmed key (split at the
/// first `=`) and the value read as JSON, or as a string when it is not JSON.
pub open spec fn metadata_spec(value: Seq<char>) -> Result<(Seq<char>, Option<Json>, Seq<char>), MetadataError> {
    match first_index(value, '=') {
        None => Err(MetadataError::MissingSeparator),
        Some(i) => {
            let key = trim(value.subrange(0, i));
            let raw = value.subrange(i + 1, value.len() as int);
            if key.len() == 0 {
                Err(MetadataError::EmptyKey)
            } else {
                Ok((key, json_parse(raw), raw))
            }
        },
    }
}

/// Reads a `key=value` metadata argument (see [`metadata_spec`]): the value
/// is the JSON the text holds, or the text itself as a JSON string.
pub fn parse_metadata(value: &str) -> (r: Result<(String, Json), MetadataError>)
    ensures
        match metadata_spec(value@) {
            Err(e) => r == Err::<(String, Json), MetadataError>(e),
            Ok((key, parsed, raw)) => r matches Ok((k, j)) && k@ == key && match parsed {
                Some(p) => j == p,
                None => j matches Json::Str(s) && s@ == raw,
            },
        },
{
    let (left, right) = match split_first_eq(value) {
        Some(parts) => parts,
        None => {
            return Err(MetadataError::MissingSeparator);
        },
    };
    let key = trim_chars(&left);
    if key.len() == 0 {
        return Err(MetadataError::EmptyKey);
    }
    let raw = string_of(&right);
    let parsed = match parse_json(raw.as_str()) {
        Some(j) => j,
        None => Json::Str(raw),
    };
    Ok((string_of(&key), parsed))
}

/// The value of the decimal digits `d`.
pub open spec fn digits_value(d: Seq<char>) -> nat
    decreases d.len(),
{
    if d.len() == 0 {
        0
    } else {
        digits_value(d.drop_last()) * 10 + (d.last() as nat - '0' as nat) as nat
    }
}

/// Whether every character of `d` is an ASCII digit.
pub open spec fn all_digits(d: Seq<char>) -> bool {
    forall|i: int| 0 <= i < d.len() ==> '0' <= #[trigger] d[i] <= '9'
}

/// The `u16` that `s` spells (`u16::from_str`): decimal digits, optionally
/// after one `+`, at most 65535.
pub open spec fn u16_spec(s: Seq<char>) -> Option<u16> {
    let d = if s.len() > 1 && s[0] == '+' {
        s.skip(1)
    } else {
        s
    };
    if d.len() == 0 || !all_digits(d) || digits_value(d) > 65535 {
        None
    } else {
        Some(digits_value(d) as u16)
    }
}

/// Reads a `u16` (see [`u16_spec`]).
pub fn parse_u16(s: &Vec<char>) -> (r: Option<u16>)
    ensures
        r == u16_spec(s@),
{
    let start: usize = if s.len() > 1 && s[0] == '+' { 1 } else { 0 };
    let ghost d = if s@.len() > 1 && s@[0] == '+' { s@.skip(1) } else { s@ };
    assert(d =~= s@.skip(start as int));
    if start == s.len() {
        return None;
    }
    let mut value: u32 = 0;
    let mut i: usize = start;
    while i < s.len()
        invariant
            start <= i <= s@.len(),
            d == s@.skip(start as int),
            d == (if s@.len() > 1 && s@[0] == '+' { s@.skip(1) } else { s@ }),
            all_digits(s@.subrange(start as int, i as int)),
            value == digits_value(s@.subrange(start as int, i as int)),
            value <= 65535,
        decreases s@.len() - i,
    {
        let c = s[i];
        if c < '0' || c > '9' {
            assert(d[i - start] == c);
            assert(!('0' <= d[i - start] <= '9'));
            assert(!all_digits(d));
            return None;
        }
        let digit: u32 = (c as u32) - ('0' as u32);
        assert(s@.subrange(start as int, i + 1).drop_last() =~= s@.subrange(start as int, i as int));
        let next: u32 = value * 10 + digit;
        if next > 65535 {
            proof {
                let p = s@.subrange(start as int, i + 1);
                assert(p =~= d.take(p.len() as int));
                if all_digits(d) {
                    lemma_digits_grow(p, d);
                }
            }
            return None;
        }
        value = next;
        i = i + 1;
    }
    assert(s@.subrange(start as int, s@.len() as int) =~= d);
    Some(value as u16)
}

/// A longer run of digits is worth at least as much as its prefix.
proof fn lemma_digits_grow(p: Seq<char>, d: Seq<char>)
    requires
        p.len() <= d.len(),
        p == d.take(p.len() as int),
        all_digits(d),
    ensures
        digits_value(p) <= digits_value(d),
    decreases d.len() - p.len(),
{
    if p.len() < d.len() {
        let q = d.take(p.len() + 1int);
        assert(q.drop_last() =~= p);
        assert(q.last() == d[p.len() as int]);
        assert('0' <= d[p.len() as int] <= '9');
        assert(digits_value(p) <= digits_value(q));
        lemma_digits_grow(q, d);
    } else {
        assert(p =~= d);
    }
}

/// Why an evaluation server URL was refused.
#[derive(Clone, Copy, Debug, PartialEq, Eq, Structural)]
pub enum EvalUrlError {
    /// It does not start with `http://`.
    NotHttp,
    /// Its port is not a number from 0 to 65535.
    BadPort,
}

/// An evaluation server reached over plain HTTP.
#[derive(Debug, PartialEq, Eq)]
pub struct HttpEvalAdapter {
    pub host: String,
    pub port: u16,
    pub path: String,
}

/// The position of the last `c` in `s`.
pub open spec fn last_pos(s: Seq<char>, c: char) -> Option<int> {
    if exists|i: int| 0 <= i < s.len() && s[i] == c {
        Some(choose|i: int| 0 <= i < s.len() && s[i] == c && forall|j: int| i < j < s.len() ==> s[j] != c)
    } else {
        None
    }
}

/// What a URL `http://host[:port][/path]` gives: the host, the port (80 by
/// default) and the path (`/` and what follows the first `/`).
pub open spec fn eval_url_spec(url: Seq<char>) -> Result<(Seq<char>, u16, Seq<char>), EvalUrlError> {
    if !(url.len() >= 7 && url.take(7) == "http://"@) {
        Err(EvalUrlError::NotHttp)
    } else {
        let rest = url.skip(7);
        let (authority, path) = match first_index(rest, '/') {
            Some(i) => (rest.take(i), rest.skip(i + 1)),
            None => (rest, Seq::empty()),
        };
        match last_pos(authority, ':') {
            Some(j) => match u16_spec(authority.skip(j + 1)) {
                Some(p) => Ok((authority.take(j), p, seq!['/'] + path)),
                None => Err(EvalUrlError::BadPort),
            },
            None => Ok((authority, 80u16, seq!['/'] + path)),
        }
    }
}

/// The characters of `s` from `a` up to `b`.
fn slice_chars(s: &Vec<char>, a: usize, b: usize) -> (r: Vec<char>)
    requires
        a <= b <= s@.len(),
    ensures
        r@ == s@.subrange(a as int, b as int),
{
    let mut out: Vec<char> = Vec::new();
    let mut i: usize = a;
    while i < b
        invariant
            a <= i <= b <= s@.len(),
            out@ == s@.subrange(a as int, i as int),
        decreases b - i,
    {
        out.push(s[i]);
        i = i + 1;
        assert(out@ =~= s@.subrange(a as int, i as int));
    }
    out
}

impl HttpEvalAdapter {
    /// The server that `url` names (see [`eval_url_spec`]); TLS is not
    /// supported.
    pub fn new(url: &str) -> (r: Result<Self, EvalUrlError>)
        ensures
            match eval_url_spec(url@) {
                Ok((host, port, path)) => r matches Ok(a) && a.host@ == host && a.port == port && a.path@ == path,
                Err(e) => r == Err::<Self, EvalUrlError>(e),
            },
    {
        proof {
            reveal_strlit("http://");
        }
        let cs = chars_of(url);
        let prefix = chars_of("http://");
        if cs.len() < 7 || !crate::text::matches_at(&cs, &prefix, 0) {
            proof {
                if cs@.len() >= 7 {
                    assert(cs@.subrange(0, 7) =~= cs@.take(7));
                }
            }
            return Err(EvalUrlError::NotHttp);
        }
        assert(cs@.subrange(0, 7) =~= cs@.take(7));
        let rest = slice_chars(&cs, 7, cs.len());
        assert(rest@ =~= url@.skip(7));
        let mut s: usize = 0;
        while s < rest.len() && rest[s] != '/'
            invariant
                s <= rest@.len(),
                forall|j: int| 0 <= j < s ==> rest@[j] != '/',
            decreases rest@.len() - s,
        {
            s = s + 1;
        }
        proof {
            if s < rest@.len() {
                let k = first_index(rest@, '/').unwrap();
                if k < s {
                } else if k > s {
                }
                assert(k == s);
            }
        }
        let authority = slice_chars(&rest, 0, s);
        let path_tail = if s < rest.len() {
            slice_chars(&rest, s + 1, rest.len())
        } else {
            Vec::new()
        };
        proof {
            if s < rest@.len() {
                assert(authority@ =~= rest@.take(s as int));
                assert(path_tail@ =~= rest@.skip(s + 1));
            } else {
                assert(authority@ =~= rest@);
                assert(path_tail@ =~= Seq::<char>::empty());
            }
        }
        let mut path = String::new();
        path.push('/');
        let ghost pv = path_tail@;
        let mut q: usize = 0;
        while q < path_tail.len()
            invariant
                q <= path_tail@.len(),
                path@ == seq!['/'] + path_tail@.take(q as int),
            decreases path_tail@.len() - q,
        {
            path.push(path_tail[q]);
            q = q + 1;
            assert(path@ =~= seq!['/'] + path_tail@.take(q as int));
        }
        assert(path_tail@.take(path_tail@.len() as int) =~= path_tail@);
        let mut c: usize = authority.len();
        while c > 0 && authority[c - 1] != ':'
            invariant
                c <= authority@.len(),
                forall|j: int| c <= j < authority@.len() ==> authority@[j] != ':',
            decreases c,
        {
            c = c - 1;
        }
        if c == 0 {
            return Ok(HttpEvalAdapter { host: string_of(&authority), port: 80, path });
        }
        let j = c - 1;
        proof {
            let k = last_pos(authority@, ':').unwrap();
            if k < j {
            } else if k > j {
            }
            assert(k == j);
        }
        let host = slice_chars(&authority, 0, j);
        let port_text = slice_chars(&authority, j + 1, authority.len());
        assert(host@ =~= authority@.take(j as int));
        assert(port_text@ =~= authority@.skip(j + 1));
        match parse_u16(&port_text) {
            Some(port) => Ok(HttpEvalAdapter { host: string_of(&host), port, path }),
            None => Err(EvalUrlError::BadPort),
        }
    }
}

} // verus!
