//! Absorbing an agent's output into the research ledger: the surfaces,
//! evidence, findings, hypotheses and verdict it reports become ledger
//! records.

use vstd::prelude::*;

use crate::ids::str_views;
use crate::json::{json_get, json_parse, parse_json, Json};
use crate::clock::now_millis;
use crate::keyed::{dedup, DeepClone};
use crate::lm_loop::{
    conclude, event_id, hypothesis_id, hypothesize, observation_id, observe, or_empty, result_id, verdict_from_text,
    verdict_name, verdict_spec, with_event, AbsorbReport, EvidenceConfidence, HypothesisCandidateV, HypothesisState,
    LedgerEventV, ObservationV, ResearchLedger, ResearchLedgerV, ResearchResultV, ResultVerdict,
};
use crate::policy::first_index;
use crate::text::{
    chars_of, clean_detail, clean_detail_spec, clean_line, collapse_ws, contains_spec, contains_str,
    join_spec, push_str, string_of, trim, trim_str, truncate, truncate_spec,
};

verus! {

/// The first of `keys` whose member in `j` is a string with something
/// besides white space, trimmed.
pub open spec fn find_str_spec(j: Json, keys: Seq<Seq<char>>) -> Option<Seq<char>>
    decreases keys.len(),
{
    if keys.len() == 0 {
        None
    } else {
        match json_get(j, keys[0]) {
            Some(Json::Str(s)) => if trim(s@).len() > 0 {
                Some(trim(s@))
            } else {
                find_str_spec(j, keys.drop_first())
            },
            _ => find_str_spec(j, keys.drop_first()),
        }
    }
}

/// The first of `keys` whose member in `value` is a string with something
/// besides white space, trimmed.
pub fn find_str(value: &Json, keys: &[&str]) -> (r: Option<String>)
    ensures
        match r {
            Some(s) => find_str_spec(*value, str_views(keys@)) == Some(s@),
            None => find_str_spec(*value, str_views(keys@)) is None,
        },
{
    let ghost ks = str_views(keys@);
    let mut i: usize = 0;
    assert(ks.skip(0) =~= ks);
    while i < keys.len()
        invariant
            i <= keys@.len(),
            ks == str_views(keys@),
            find_str_spec(*value, ks) == find_str_spec(*value, ks.skip(i as int)),
        decreases keys@.len() - i,
    {
        let ghost rest = ks.skip(i as int);
        assert(rest.drop_first() =~= ks.skip(i + 1));
        assert(rest[0] == keys@[i as int]@);
        match value.get(keys[i]) {
            Some(found) => match found.as_str() {
                Some(text) => {
                    let t = trim_str(text);
                    if !t.as_str().is_empty() {
                        return Some(t);
                    }
                },
                None => {},
            },
            None => {},
        }
        i = i + 1;
    }
    None
}

/// `t`, or `d` when `t` is `None`.
pub open spec fn or_text(t: Option<Seq<char>>, d: Seq<char>) -> Seq<char> {
    match t {
        Some(x) => x,
        None => d,
    }
}

/// The surface an item reports: a URL given as a string, or an object with
/// a URL and optionally its method, status and a title.
pub open spec fn surface_spec(j: Json) -> Option<(Seq<char>, Seq<char>)> {
    match j {
        Json::Str(s) if trim(s@).len() > 0 => Some(("surface observed "@ + trim(s@), Seq::empty())),
        _ => match find_str_spec(j, seq!["url"@, "endpoint"@, "href"@, "path"@]) {
            None => None,
            Some(url) => {
                let method = or_text(find_str_spec(j, seq!["method"@]), "GET"@);
                let status = or_text(find_str_spec(j, seq!["status"@, "status_code"@]), Seq::empty());
                let with_status = "method="@ + method + if status.len() > 0 {
                    " status="@ + status
                } else {
                    Seq::empty()
                };
                let detail = match find_str_spec(j, seq!["title"@, "summary"@, "description"@]) {
                    Some(title) => with_status + " detail="@ + title,
                    None => with_status,
                };
                Some(("surface observed "@ + url, detail))
            },
        },
    }
}

/// The text of `o` (empty for `None`).
fn text_or(o: Option<String>, d: &str) -> (r: String)
    ensures
        r@ == or_text(
            match o {
                Some(s) => Some(s@),
                None => None,
            },
            d@,
        ),
{
    match o {
        Some(s) => s,
        None => d.to_owned(),
    }
}

/// The surface an item reports (see [`surface_spec`]).
pub fn surface_observation(value: &Json) -> (r: Option<(String, String)>)
    ensures
        match r {
            Some((s, d)) => surface_spec(*value) == Some((s@, d@)),
            None => surface_spec(*value) is None,
        },
{
    match value {
        Json::Str(s) => {
            let t = trim_str(s.as_str());
            if !t.as_str().is_empty() {
                let mut summary = String::new();
                push_str(&mut summary, "surface observed ");
                push_str(&mut summary, t.as_str());
                return Some((summary, String::new()));
            }
        },
        _ => {},
    }
    let keys1: &[&str] = &["url", "endpoint", "href", "path"];
    assert(str_views(keys1@) =~= seq!["url"@, "endpoint"@, "href"@, "path"@]);
    let url = match find_str(value, keys1) {
        Some(u) => u,
        None => {
            return None;
        },
    };
    let keys2: &[&str] = &["method"];
    assert(str_views(keys2@) =~= seq!["method"@]);
    let method = text_or(find_str(value, keys2), "GET");
    let keys3: &[&str] = &["status", "status_code"];
    assert(str_views(keys3@) =~= seq!["status"@, "status_code"@]);
    let status = match find_str(value, keys3) {
        Some(x) => x,
        None => String::new(),
    };
    let mut detail = String::new();
    push_str(&mut detail, "method=");
    push_str(&mut detail, method.as_str());
    if !status.as_str().is_empty() {
        push_str(&mut detail, " status=");
        push_str(&mut detail, status.as_str());
        assert(detail@ =~= "method="@ + method@ + (" status="@ + status@));
    } else {
        assert(detail@ =~= "method="@ + method@ + Seq::<char>::empty());
    }
    let keys4: &[&str] = &["title", "summary", "description"];
    assert(str_views(keys4@) =~= seq!["title"@, "summary"@, "description"@]);
    match find_str(value, keys4) {
        Some(title) => {
            push_str(&mut detail, " detail=");
            push_str(&mut detail, title.as_str());
        },
        None => {},
    }
    let mut summary = String::new();
    push_str(&mut summary, "surface observed ");
    push_str(&mut summary, url.as_str());
    proof {
        let j = *value;
        assert(!(j matches Json::Str(s) && trim(s@).len() > 0));
        assert(find_str_spec(j, seq!["url"@, "endpoint"@, "href"@, "path"@]) == Some(url@));
        assert(or_text(find_str_spec(j, seq!["method"@]), "GET"@) == method@);
        assert(or_text(find_str_spec(j, seq!["status"@, "status_code"@]), Seq::empty()) == status@);
    }
    Some((summary, detail))
}

/// The evidence an item reports: a line of text, or an object with a detail
/// and optionally its kind.
pub open spec fn evidence_spec(j: Json) -> Option<(Seq<char>, Seq<char>)> {
    match j {
        Json::Str(s) if clean_detail_spec(s@).len() > 0 => {
            let detail = clean_detail_spec(s@);
            Some((truncate_spec(detail, 120), detail))
        },
        _ => match find_str_spec(j, seq!["detail"@, "evidence"@, "summary"@, "body"@, "output"@]) {
            Some(d) if clean_detail_spec(d).len() > 0 => {
                let detail = clean_detail_spec(d);
                let kind = or_text(find_str_spec(j, seq!["kind"@, "type"@]), "evidence"@);
                Some((kind + ": "@ + truncate_spec(detail, 100), detail))
            },
            _ => None,
        },
    }
}

/// The evidence an item reports (see [`evidence_spec`]).
pub fn evidence_observation(value: &Json) -> (r: Option<(String, String)>)
    ensures
        match r {
            Some((s, d)) => evidence_spec(*value) == Some((s@, d@)),
            None => evidence_spec(*value) is None,
        },
{
    match value {
        Json::Str(s) => {
            let detail = clean_detail(s.as_str());
            if !detail.as_str().is_empty() {
                let summary = truncate(detail.as_str(), 120);
                return Some((summary, detail));
            }
        },
        _ => {},
    }
    let keys5: &[&str] = &["detail", "evidence", "summary", "body", "output"];
    assert(str_views(keys5@) =~= seq!["detail"@, "evidence"@, "summary"@, "body"@, "output"@]);
    let found = match find_str(value, keys5) {
        Some(d) => d,
        None => {
            return None;
        },
    };
    let detail = clean_detail(found.as_str());
    if detail.as_str().is_empty() {
        return None;
    }
    let keys6: &[&str] = &["kind", "type"];
    assert(str_views(keys6@) =~= seq!["kind"@, "type"@]);
    let kind = text_or(find_str(value, keys6), "evidence");
    let mut summary = String::new();
    push_str(&mut summary, kind.as_str());
    push_str(&mut summary, ": ");
    let short = truncate(detail.as_str(), 100);
    push_str(&mut summary, short.as_str());
    Some((summary, detail))
}

/// The finding an item reports: a line of text, or an object with a title
/// and optionally its severity, endpoint and verdict; a confirmed or
/// validated verdict makes the evidence strong.
pub open spec fn finding_spec(j: Json) -> Option<(Seq<char>, Seq<char>, EvidenceConfidence)> {
    match j {
        Json::Str(s) if clean_detail_spec(s@).len() > 0 => {
            let detail = clean_detail_spec(s@);
            Some(("finding: "@ + truncate_spec(detail, 100), detail, EvidenceConfidence::Medium))
        },
        _ => match find_str_spec(j, seq!["title"@, "vulnerability"@, "name"@, "summary"@]) {
            None => None,
            Some(title) => {
                let severity = or_text(find_str_spec(j, seq!["severity"@]), "unknown"@);
                let endpoint = or_text(
                    find_str_spec(j, seq!["endpoint"@, "url"@, "endpoint_url"@]),
                    "unknown"@,
                );
                let verdict = or_text(find_str_spec(j, seq!["verdict"@, "status"@]), "suspected"@);
                let confidence = if contains_spec(verdict, "confirmed"@) || contains_spec(
                    verdict,
                    "validated"@,
                ) {
                    EvidenceConfidence::High
                } else {
                    EvidenceConfidence::Medium
                };
                Some(
                    (
                        "finding "@ + title + " severity="@ + severity,
                        "endpoint="@ + endpoint + " verdict="@ + verdict,
                        confidence,
                    ),
                )
            },
        },
    }
}

/// The finding an item reports (see [`finding_spec`]).
pub fn finding_observation(value: &Json) -> (r: Option<(String, String, EvidenceConfidence)>)
    ensures
        match r {
            Some((s, d, c)) => finding_spec(*value) == Some((s@, d@, c)),
            None => finding_spec(*value) is None,
        },
{
    match value {
        Json::Str(s) => {
            let detail = clean_detail(s.as_str());
            if !detail.as_str().is_empty() {
                let mut summary = String::new();
                push_str(&mut summary, "finding: ");
                let short = truncate(detail.as_str(), 100);
                push_str(&mut summary, short.as_str());
                return Some((summary, detail, EvidenceConfidence::Medium));
            }
        },
        _ => {},
    }
    let keys7: &[&str] = &["title", "vulnerability", "name", "summary"];
    assert(str_views(keys7@) =~= seq!["title"@, "vulnerability"@, "name"@, "summary"@]);
    let title = match find_str(value, keys7) {
        Some(t) => t,
        None => {
            return None;
        },
    };
    let keys8: &[&str] = &["severity"];
    assert(str_views(keys8@) =~= seq!["severity"@]);
    let severity = text_or(find_str(value, keys8), "unknown");
    let keys9: &[&str] = &["endpoint", "url", "endpoint_url"];
    assert(str_views(keys9@) =~= seq!["endpoint"@, "url"@, "endpoint_url"@]);
    let endpoint = text_or(find_str(value, keys9), "unknown");
    let keys10: &[&str] = &["verdict", "status"];
    assert(str_views(keys10@) =~= seq!["verdict"@, "status"@]);
    let verdict = text_or(find_str(value, keys10), "suspected");
    let vc = chars_of(verdict.as_str());
    let confidence = if contains_str(&vc, "confirmed") || contains_str(&vc, "validated") {
        EvidenceConfidence::High
    } else {
        EvidenceConfidence::Medium
    };
    let mut summary = String::new();
    push_str(&mut summary, "finding ");
    push_str(&mut summary, title.as_str());
    push_str(&mut summary, " severity=");
    push_str(&mut summary, severity.as_str());
    let mut detail = String::new();
    push_str(&mut detail, "endpoint=");
    push_str(&mut detail, endpoint.as_str());
    push_str(&mut detail, " verdict=");
    push_str(&mut detail, verdict.as_str());
    Some((summary, detail, confidence))
}

/// The hypothesis an item proposes: a statement given as text, or an object
/// with a statement and optionally its target and rationale.
pub open spec fn hypothesis_spec(j: Json) -> Option<(Seq<char>, Option<Seq<char>>, Seq<char>)> {
    match j {
        Json::Str(s) if collapse_ws(s@).len() > 0 => Some((collapse_ws(s@), None, Seq::empty())),
        _ => match find_str_spec(j, seq!["statement"@, "hypothesis"@, "title"@, "idea"@]) {
            Some(st) if collapse_ws(st).len() > 0 => Some(
                (
                    collapse_ws(st),
                    find_str_spec(j, seq!["target"@, "url"@, "endpoint"@]),
                    match find_str_spec(j, seq!["reasoning"@, "rationale"@, "why"@, "evidence"@]) {
                        Some(x) => clean_detail_spec(x),
                        None => Seq::empty(),
                    },
                ),
            ),
            _ => None,
        },
    }
}

/// The hypothesis an item proposes (see [`hypothesis_spec`]).
pub fn hypothesis_candidate(value: &Json) -> (r: Option<(String, Option<String>, String)>)
    ensures
        match r {
            Some((s, t, x)) => hypothesis_spec(*value) == Some(
                (
                    s@,
                    match t {
                        Some(y) => Some(y@),
                        None => None,
                    },
                    x@,
                ),
            ),
            None => hypothesis_spec(*value) is None,
        },
{
    match value {
        Json::Str(s) => {
            let statement = clean_line(s.as_str());
            if !statement.as_str().is_empty() {
                return Some((statement, None, String::new()));
            }
        },
        _ => {},
    }
    let keys11: &[&str] = &["statement", "hypothesis", "title", "idea"];
    assert(str_views(keys11@) =~= seq!["statement"@, "hypothesis"@, "title"@, "idea"@]);
    let found = match find_str(value, keys11) {
        Some(s) => s,
        None => {
            return None;
        },
    };
    let statement = clean_line(found.as_str());
    if statement.as_str().is_empty() {
        return None;
    }
    let keys12: &[&str] = &["target", "url", "endpoint"];
    assert(str_views(keys12@) =~= seq!["target"@, "url"@, "endpoint"@]);
    let target = find_str(value, keys12);
    let keys13: &[&str] = &["reasoning", "rationale", "why", "evidence"];
    assert(str_views(keys13@) =~= seq!["reasoning"@, "rationale"@, "why"@, "evidence"@]);
    let rationale = match find_str(value, keys13) {
        Some(x) => clean_detail(x.as_str()),
        None => String::new(),
    };
    Some((statement, target, rationale))
}


/// The position of the last `c` in `s`.
pub open spec fn last_index(s: Seq<char>, c: char) -> Option<int> {
    if exists|i: int| 0 <= i < s.len() && s[i] == c {
        Some(choose|i: int| 0 <= i < s.len() && s[i] == c && forall|j: int| i < j < s.len() ==> s[j] != c)
    } else {
        None
    }
}

/// The JSON value an agent's output holds: the whole output when it is
/// JSON, else the span from its first `{` to its last `}` when that is.
pub open spec fn extract_spec(output: Seq<char>) -> Option<Json> {
    match json_parse(output) {
        Some(j) => Some(j),
        None => match (first_index(output, '{'), last_index(output, '}')) {
            (Some(a), Some(b)) => if b <= a {
                None
            } else {
                json_parse(output.subrange(a, b + 1))
            },
            _ => None,
        },
    }
}

/// The JSON value an agent's output holds (see [`extract_spec`]).
pub fn extract_json_value(output: &str) -> (r: Option<Json>)
    ensures
        r == extract_spec(output@),
{
    match parse_json(output) {
        Some(j) => {
            return Some(j);
        },
        None => {},
    }
    let cs = chars_of(output);
    let mut a: usize = 0;
    while a < cs.len() && cs[a] != '{'
        invariant
            a <= cs.len(),
            cs@ == output@,
            forall|j: int| 0 <= j < a ==> cs@[j] != '{',
        decreases cs.len() - a,
    {
        a = a + 1;
    }
    if a == cs.len() {
        return None;
    }
    let mut b: usize = cs.len();
    while b > 0 && cs[b - 1] != '}'
        invariant
            b <= cs.len(),
            cs@ == output@,
            forall|j: int| b <= j < cs.len() ==> cs@[j] != '}',
        decreases b,
    {
        b = b - 1;
    }
    proof {
        let k = first_index(output@, '{').unwrap();
        if k < a {
        } else if k > a {
        }
        assert(k == a);
    }
    if b == 0 {
        return None;
    }
    let e = b - 1;
    proof {
        let k = last_index(output@, '}').unwrap();
        if k < e {
        } else if k > e {
        }
        assert(k == e);
    }
    if e <= a {
        return None;
    }
    let mut sub: Vec<char> = Vec::new();
    let mut i: usize = a;
    while i <= e
        invariant
            a <= i <= e + 1,
            e < cs.len(),
            sub@ == cs@.subrange(a as int, i as int),
        decreases e + 1 - i,
    {
        sub.push(cs[i]);
        i = i + 1;
        assert(sub@ =~= cs@.subrange(a as int, i as int));
    }
    let text = string_of(&sub);
    parse_json(text.as_str())
}

/// The value inside an `output` object member, when there is one; else the
/// value itself.
pub open spec fn unwrap_spec(j: Json) -> Json {
    match json_get(j, "output"@) {
        Some(inner) => if inner is Object {
            inner
        } else {
            j
        },
        None => j,
    }
}

/// The value inside an `output` object member, when there is one.
pub fn unwrap_output_value(value: &Json) -> (r: &Json)
    ensures
        *r == unwrap_spec(*value),
{
    match value.get("output") {
        Some(inner) => if inner.is_object() {
            inner
        } else {
            value
        },
        None => value,
    }
}

/// The ledger while an output is absorbed, with the ids recorded so far and
/// the observation ids that serve as evidence.
pub struct AbsorbState {
    pub ledger: ResearchLedgerV,
    pub observations: Seq<Seq<char>>,
    pub hypotheses: Seq<Seq<char>>,
    pub results: Seq<Seq<char>>,
    pub evidence: Seq<Seq<char>>,
}

/// The observation an item of kind `kind` (0 surfaces, 1 evidence, 2
/// findings) reports, with its confidence.
pub open spec fn item_observation(kind: u8, j: Json) -> Option<(Seq<char>, Seq<char>, EvidenceConfidence)> {
    if kind == 0 {
        match surface_spec(j) {
            Some((s, d)) => Some((s, d, EvidenceConfidence::Medium)),
            None => None,
        }
    } else if kind == 1 {
        match evidence_spec(j) {
            Some((s, d)) => Some((s, d, EvidenceConfidence::High)),
            None => None,
        }
    } else {
        finding_spec(j)
    }
}

/// `st` after recording, in order, the observations that `items` of kind
/// `kind` report, each as evidence.
pub open spec fn observe_items(
    st: AbsorbState,
    items: Seq<Json>,
    kind: u8,
    target: Seq<char>,
    source: Seq<char>,
    now: u64,
) -> AbsorbState
    decreases items.len(),
{
    if items.len() == 0 {
        st
    } else {
        let s1 = observe_items(st, items.drop_last(), kind, target, source, now);
        match item_observation(kind, items.last()) {
            Some((summary, detail, c)) => {
                let (l, id) = observe(s1.ledger, target, source, summary, detail, c, now);
                AbsorbState {
                    ledger: l,
                    observations: s1.observations.push(id),
                    evidence: s1.evidence.push(id),
                    ..s1
                }
            },
            None => s1,
        }
    }
}

/// `st` after recording, in order, the hypotheses that `items` propose,
/// each backed by the evidence so far and aimed at `target` unless it names
/// its own.
pub open spec fn propose_items(st: AbsorbState, items: Seq<Json>, target: Seq<char>, now: u64) -> AbsorbState
    decreases items.len(),
{
    if items.len() == 0 {
        st
    } else {
        let s1 = propose_items(st, items.drop_last(), target, now);
        match hypothesis_spec(items.last()) {
            Some((statement, t, rationale)) => {
                let (l, id) = hypothesize(
                    s1.ledger,
                    statement,
                    Some(or_text(t, target)),
                    rationale,
                    s1.evidence,
                    now,
                );
                AbsorbState { ledger: l, hypotheses: s1.hypotheses.push(id), ..s1 }
            },
            None => s1,
        }
    }
}

/// The items of an array member (none for anything else).
pub open spec fn json_items(o: Option<Json>) -> Seq<Json> {
    match o {
        Some(Json::Array(v)) => v@,
        _ => Seq::empty(),
    }
}

/// `l` after absorbing the JSON output `j` of agent `agent_id` at node
/// `node_id`: its surfaces, evidence and findings become observations, its
/// hypotheses hypotheses, and a non-blank verdict a result.
pub open spec fn absorb_json(
    l: ResearchLedgerV,
    node_id: Seq<char>,
    target: Seq<char>,
    agent_id: Seq<char>,
    j: Json,
    now: u64,
) -> AbsorbState {
    let j = unwrap_spec(j);
    let source = agent_id + ":"@ + node_id;
    let s0 = AbsorbState {
        ledger: l,
        observations: Seq::empty(),
        hypotheses: Seq::empty(),
        results: Seq::empty(),
        evidence: Seq::empty(),
    };
    let s1 = observe_items(s0, json_items(json_get(j, "surfaces"@)), 0, target, source, now);
    let s2 = observe_items(s1, json_items(json_get(j, "evidence"@)), 1, target, source, now);
    let s3 = observe_items(s2, json_items(json_get(j, "findings"@)), 2, target, source, now);
    let s4 = propose_items(s3, json_items(json_get(j, "hypotheses"@)), target, now);
    match json_get(j, "verdict"@) {
        Some(Json::Str(v)) if collapse_ws(v@).len() > 0 => {
            let summary = collapse_ws(v@);
            let (l5, id) = conclude(s4.ledger, Some(node_id), verdict_spec(summary), summary, s4.evidence, now);
            AbsorbState { ledger: l5, results: seq![id], ..s4 }
        },
        _ => s4,
    }
}

/// At most the first thousand characters of `s`.
pub open spec fn head_1000(s: Seq<char>) -> Seq<char> {
    if s.len() > 1000 {
        s.take(1000)
    } else {
        s
    }
}

/// `l` after absorbing `output`, read as `parsed`: the JSON it holds, or
/// (when it holds none) one weak observation of its first thousand
/// characters.
pub open spec fn absorb_spec(
    l: ResearchLedgerV,
    node_id: Seq<char>,
    target: Seq<char>,
    agent_id: Seq<char>,
    output: Seq<char>,
    parsed: Option<Json>,
    now: u64,
) -> AbsorbState {
    match parsed {
        Some(j) => absorb_json(l, node_id, target, agent_id, j, now),
        None => {
            let (l1, id) = observe(
                l,
                target,
                agent_id,
                "unstructured output from "@ + node_id,
                head_1000(output),
                EvidenceConfidence::Low,
                now,
            );
            AbsorbState {
                ledger: l1,
                observations: seq![id],
                hypotheses: Seq::empty(),
                results: Seq::empty(),
                evidence: Seq::empty(),
            }
        },
    }
}

/// The absorb state that `ledger`, `report` and `evidence` stand for.
pub open spec fn state_of(ledger: ResearchLedger, report: AbsorbReport, evidence: Vec<String>) -> AbsorbState {
    AbsorbState {
        ledger: ledger.deep_view(),
        observations: report.observation_ids.deep_view(),
        hypotheses: report.hypothesis_ids.deep_view(),
        results: report.result_ids.deep_view(),
        evidence: evidence.deep_view(),
    }
}

impl ResearchLedger {
    /// Records the observations that `items` of kind `kind` report.
    fn observe_list(
        &mut self,
        items: &Vec<Json>,
        kind: u8,
        target: &str,
        source: &str,
        now: u64,
        report: &mut AbsorbReport,
        evidence: &mut Vec<String>,
    )
        requires
            kind <= 2,
        ensures
            state_of(*final(self), *final(report), *final(evidence)) == observe_items(
                state_of(*old(self), *old(report), *old(evidence)),
                items@,
                kind,
                target@,
                source@,
                now,
            ),
            final(report).hypothesis_ids == old(report).hypothesis_ids,
            final(report).result_ids == old(report).result_ids,
    {
        let ghost st0 = state_of(*self, *report, *evidence);
        let mut i: usize = 0;
        while i < items.len()
            invariant
                i <= items@.len(),
                kind <= 2,
                state_of(*self, *report, *evidence) == observe_items(st0, items@.take(i as int), kind, target@, source@, now),
                report.hypothesis_ids == old(report).hypothesis_ids,
                report.result_ids == old(report).result_ids,
            decreases items@.len() - i,
        {
            assert(items@.take(i + 1).drop_last() =~= items@.take(i as int));
            assert(items@.take(i + 1).last() == items@[i as int]);
            let item = &items[i];
            let found: Option<(String, String, EvidenceConfidence)> = if kind == 0 {
                match surface_observation(item) {
                    Some((a, b)) => Some((a, b, EvidenceConfidence::Medium)),
                    None => None,
                }
            } else if kind == 1 {
                match evidence_observation(item) {
                    Some((a, b)) => Some((a, b, EvidenceConfidence::High)),
                    None => None,
                }
            } else {
                finding_observation(item)
            };
            match found {
                Some((summary, detail, c)) => {
                    let id = self.record_observation_at(target, source, summary.as_str(), detail.as_str(), c, now);
                    let ghost o1 = report.observation_ids.deep_view();
                    let ghost e1 = evidence.deep_view();
                    report.observation_ids.push(id.clone());
                    evidence.push(id);
                    assert(report.observation_ids.deep_view() =~= o1.push(id@));
                    assert(evidence.deep_view() =~= e1.push(id@));
                },
                None => {},
            }
            i = i + 1;
        }
        assert(items@.take(items@.len() as int) =~= items@);
    }

    /// Records the hypotheses that `items` propose.
    fn propose_list(
        &mut self,
        items: &Vec<Json>,
        target: &str,
        now: u64,
        report: &mut AbsorbReport,
        evidence: &Vec<String>,
    )
        ensures
            state_of(*final(self), *final(report), *evidence) == propose_items(
                state_of(*old(self), *old(report), *evidence),
                items@,
                target@,
                now,
            ),
            final(report).observation_ids == old(report).observation_ids,
            final(report).result_ids == old(report).result_ids,
    {
        let ghost st0 = state_of(*self, *report, *evidence);
        let mut i: usize = 0;
        while i < items.len()
            invariant
                i <= items@.len(),
                state_of(*self, *report, *evidence) == propose_items(st0, items@.take(i as int), target@, now),
                report.observation_ids == old(report).observation_ids,
                report.result_ids == old(report).result_ids,
            decreases items@.len() - i,
        {
            assert(items@.take(i + 1).drop_last() =~= items@.take(i as int));
            assert(items@.take(i + 1).last() == items@[i as int]);
            match hypothesis_candidate(&items[i]) {
                Some((statement, t, rationale)) => {
                    let aim = match t {
                        Some(x) => x,
                        None => target.to_owned(),
                    };
                    let ev = evidence.deep_clone();
                    let id = self.record_hypothesis_at(statement.as_str(), Some(aim), rationale.as_str(), ev, now);
                    let ghost h1 = report.hypothesis_ids.deep_view();
                    report.hypothesis_ids.push(id);
                    assert(report.hypothesis_ids.deep_view() =~= h1.push(id@));
                },
                None => {},
            }
            i = i + 1;
        }
        assert(items@.take(items@.len() as int) =~= items@);
    }

    /// Absorbs `output` of agent `agent_id` at node `node_id`, already read
    /// as `parsed`, into the ledger at time `now` (see [`absorb_spec`]).
    pub fn absorb_parsed_at(
        &mut self,
        node_id: &str,
        target: &str,
        agent_id: &str,
        output: &str,
        parsed: Option<Json>,
        now: u64,
    ) -> (r: AbsorbReport)
        ensures
            ({
                let st = absorb_spec(old(self).deep_view(), node_id@, target@, agent_id@, output@, parsed, now);
                &&& final(self).deep_view() == st.ledger
                &&& r.observation_ids.deep_view() == st.observations
                &&& r.hypothesis_ids.deep_view() == st.hypotheses
                &&& r.result_ids.deep_view() == st.results
            }),
    {
        let mut report = AbsorbReport::default();
        let json = match parsed {
            None => {
                let mut summary = String::new();
                push_str(&mut summary, "unstructured output from ");
                push_str(&mut summary, node_id);
                let cs = chars_of(output);
                let mut head: Vec<char> = Vec::new();
                let mut i: usize = 0;
                while i < cs.len() && i < 1000
                    invariant
                        i <= cs@.len(),
                        i <= 1000,
                        head@ == cs@.take(i as int),
                    decreases cs@.len() - i,
                {
                    head.push(cs[i]);
                    i = i + 1;
                    assert(head@ =~= cs@.take(i as int));
                }
                assert(head@ =~= head_1000(output@));
                let detail = string_of(&head);
                let id = self.record_observation_at(
                    target,
                    agent_id,
                    summary.as_str(),
                    detail.as_str(),
                    EvidenceConfidence::Low,
                    now,
                );
                report.observation_ids.push(id);
                assert(report.observation_ids.deep_view() =~= seq![id@]);
                assert(report.hypothesis_ids.deep_view() =~= Seq::<Seq<char>>::empty());
                assert(report.result_ids.deep_view() =~= Seq::<Seq<char>>::empty());
                return report;
            },
            Some(j) => j,
        };
        let j = unwrap_output_value(&json);
        let mut source = String::new();
        push_str(&mut source, agent_id);
        push_str(&mut source, ":");
        push_str(&mut source, node_id);
        let mut evidence: Vec<String> = Vec::new();
        let ghost s0 = state_of(*self, report, evidence);
        assert(s0 == AbsorbState {
            ledger: old(self).deep_view(),
            observations: Seq::empty(),
            hypotheses: Seq::empty(),
            results: Seq::empty(),
            evidence: Seq::empty(),
        }) by {
            assert(report.observation_ids.deep_view() =~= Seq::<Seq<char>>::empty());
            assert(report.hypothesis_ids.deep_view() =~= Seq::<Seq<char>>::empty());
            assert(report.result_ids.deep_view() =~= Seq::<Seq<char>>::empty());
            assert(evidence.deep_view() =~= Seq::<Seq<char>>::empty());
        }
        let keys = ["surfaces", "evidence", "findings"];
        let mut kind: u8 = 0;
        while kind < 3
            invariant
                kind <= 3,
                keys@ == seq!["surfaces", "evidence", "findings"],
                state_of(*self, report, evidence) == ({
                    let s1 = observe_items(s0, json_items(json_get(*j, "surfaces"@)), 0, target@, source@, now);
                    let s2 = observe_items(s1, json_items(json_get(*j, "evidence"@)), 1, target@, source@, now);
                    if kind == 0 { s0 } else if kind == 1 { s1 } else if kind == 2 { s2 } else {
                        observe_items(s2, json_items(json_get(*j, "findings"@)), 2, target@, source@, now)
                    }
                }),
                report.result_ids.deep_view() == Seq::<Seq<char>>::empty(),
                report.hypothesis_ids.deep_view() == Seq::<Seq<char>>::empty(),
            decreases 3 - kind,
        {
            let key = keys[kind as usize];
            match j.get(key) {
                Some(v) => match v.as_array() {
                    Some(items) => {
                        self.observe_list(items, kind, target, source.as_str(), now, &mut report, &mut evidence);
                    },
                    None => {},
                },
                None => {},
            }
            kind = kind + 1;
        }
        match j.get("hypotheses") {
            Some(v) => match v.as_array() {
                Some(items) => {
                    self.propose_list(items, target, now, &mut report, &evidence);
                },
                None => {},
            },
            None => {},
        }
        match j.get("verdict") {
            Some(v) => match v.as_str() {
                Some(text) => {
                    let summary = clean_line(text);
                    if !summary.as_str().is_empty() {
                        let verdict = verdict_from_text(summary.as_str());
                        let id = self.record_result_at(Some(node_id.to_owned()), verdict, summary.as_str(), evidence, now);
                        report.result_ids.push(id);
                        assert(report.result_ids.deep_view() =~= seq![id@]);
                    }
                },
                None => {},
            },
            None => {},
        }
        report
    }

    /// Absorbs `output` of agent `agent_id` at node `node_id` into the ledger
    /// at time `now`, reading the JSON it holds (see [`extract_spec`]).
    pub fn absorb_agent_output_at(&mut self, node_id: &str, target: &str, agent_id: &str, output: &str, now: u64) -> (r: AbsorbReport)
        ensures
            ({
                let st = absorb_spec(old(self).deep_view(), node_id@, target@, agent_id@, output@, extract_spec(output@), now);
                &&& final(self).deep_view() == st.ledger
                &&& r.observation_ids.deep_view() == st.observations
                &&& r.hypothesis_ids.deep_view() == st.hypotheses
                &&& r.result_ids.deep_view() == st.results
            }),
    {
        let parsed = extract_json_value(output);
        self.absorb_parsed_at(node_id, target, agent_id, output, parsed, now)
    }

    /// Absorbs `output` of agent `agent_id` at node `node_id` into the ledger,
    /// stamped with the time now.
    pub fn absorb_agent_output(&mut self, node_id: &str, target: &str, agent_id: &str, output: &str) -> (r: AbsorbReport)
        ensures
            exists|now: u64| ({
                let st = #[trigger] absorb_spec(old(self).deep_view(), node_id@, target@, agent_id@, output@, extract_spec(output@), now);
                &&& final(self).deep_view() == st.ledger
                &&& r.observation_ids.deep_view() == st.observations
                &&& r.hypothesis_ids.deep_view() == st.hypotheses
                &&& r.result_ids.deep_view() == st.results
            }),
    {
        let now = now_millis();
        self.absorb_agent_output_at(node_id, target, agent_id, output, now)
    }
}

/// Whether `s` begins with `t`.
pub open spec fn extends<T>(s: Seq<T>, t: Seq<T>) -> bool {
    s.len() >= t.len() && s.take(t.len() as int) == t
}

/// Whether ledger `b` only adds to ledger `a`: the same run, targets and
/// experiment plans, and the observations, hypotheses, results and events of
/// `a` kept, in order, at the front of `b`'s.
pub open spec fn grows(a: ResearchLedgerV, b: ResearchLedgerV) -> bool {
    &&& b.run_id == a.run_id
    &&& b.targets == a.targets
    &&& b.experiments == a.experiments
    &&& extends(b.observations, a.observations)
    &&& extends(b.hypotheses, a.hypotheses)
    &&& extends(b.results, a.results)
    &&& extends(b.events, a.events)
}

proof fn lemma_grows_trans(a: ResearchLedgerV, b: ResearchLedgerV, c: ResearchLedgerV)
    requires
        grows(a, b),
        grows(b, c),
    ensures
        grows(a, c),
{
    assert(c.observations.take(a.observations.len() as int) =~= b.observations.take(a.observations.len() as int));
    assert(c.hypotheses.take(a.hypotheses.len() as int) =~= b.hypotheses.take(a.hypotheses.len() as int));
    assert(c.results.take(a.results.len() as int) =~= b.results.take(a.results.len() as int));
    assert(c.events.take(a.events.len() as int) =~= b.events.take(a.events.len() as int));
}

proof fn lemma_grows_refl(a: ResearchLedgerV)
    ensures
        grows(a, a),
{
    assert(a.observations.take(a.observations.len() as int) =~= a.observations);
    assert(a.hypotheses.take(a.hypotheses.len() as int) =~= a.hypotheses);
    assert(a.results.take(a.results.len() as int) =~= a.results);
    assert(a.events.take(a.events.len() as int) =~= a.events);
}

proof fn lemma_push_extends<T>(s: Seq<T>, x: T)
    ensures
        extends(s.push(x), s),
{
    assert(s.push(x).take(s.len() as int) =~= s);
}

proof fn lemma_event_extends(
    events: Seq<LedgerEventV>,
    run_id: Seq<char>,
    kind: Seq<char>,
    ref_id: Seq<char>,
    summary: Seq<char>,
    at: u64,
)
    ensures
        extends(with_event(events, run_id, kind, ref_id, summary, at), events),
{
    lemma_push_extends(events, LedgerEventV {
        id: event_id(run_id, kind, ref_id, summary),
        kind,
        ref_id,
        summary,
        created_at_ms: at,
    });
    assert(events.take(events.len() as int) =~= events);
}

proof fn lemma_observe_grows(
    l: ResearchLedgerV,
    target: Seq<char>,
    source: Seq<char>,
    summary: Seq<char>,
    detail: Seq<char>,
    c: EvidenceConfidence,
    now: u64,
)
    ensures
        grows(l, observe(l, target, source, summary, detail, c, now).0),
{
    lemma_grows_refl(l);
    let s = collapse_ws(summary);
    let d = clean_detail_spec(detail);
    let id = observation_id(l.run_id, target, source, s, d);
    lemma_event_extends(l.events, l.run_id, "observation"@, id, s, now);
    lemma_push_extends(l.observations, ObservationV {
        id,
        target,
        source,
        summary: s,
        detail: d,
        artifact_refs: Seq::empty(),
        confidence: c,
        created_at_ms: now,
    });
}

proof fn lemma_observe_items_grows(st: AbsorbState, items: Seq<Json>, kind: u8, target: Seq<char>, source: Seq<char>, now: u64)
    ensures
        grows(st.ledger, observe_items(st, items, kind, target, source, now).ledger),
        observe_items(st, items, kind, target, source, now).results == st.results,
    decreases items.len(),
{
    if items.len() == 0 {
        lemma_grows_refl(st.ledger);
    } else {
        let s1 = observe_items(st, items.drop_last(), kind, target, source, now);
        lemma_observe_items_grows(st, items.drop_last(), kind, target, source, now);
        match item_observation(kind, items.last()) {
            Some((summary, detail, c)) => {
                lemma_observe_grows(s1.ledger, target, source, summary, detail, c, now);
                lemma_grows_trans(st.ledger, s1.ledger, observe(s1.ledger, target, source, summary, detail, c, now).0);
            },
            None => {},
        }
    }
}

proof fn lemma_hypothesize_grows(
    l: ResearchLedgerV,
    statement: Seq<char>,
    target: Option<Seq<char>>,
    rationale: Seq<char>,
    evidence_ids: Seq<Seq<char>>,
    now: u64,
)
    ensures
        grows(l, hypothesize(l, statement, target, rationale, evidence_ids, now).0),
{
    lemma_grows_refl(l);
    let st = collapse_ws(statement);
    let ra = clean_detail_spec(rationale);
    let id = hypothesis_id(l.run_id, or_empty(target), st);
    lemma_event_extends(l.events, l.run_id, "hypothesis"@, id, st, now);
    lemma_push_extends(l.hypotheses, HypothesisCandidateV {
        id,
        statement: st,
        target,
        rationale: ra,
        status: HypothesisState::Proposed,
        evidence_ids: dedup(evidence_ids),
        created_at_ms: now,
    });
}

proof fn lemma_propose_items_grows(st: AbsorbState, items: Seq<Json>, target: Seq<char>, now: u64)
    ensures
        grows(st.ledger, propose_items(st, items, target, now).ledger),
        propose_items(st, items, target, now).results == st.results,
    decreases items.len(),
{
    if items.len() == 0 {
        lemma_grows_refl(st.ledger);
    } else {
        let s1 = propose_items(st, items.drop_last(), target, now);
        lemma_propose_items_grows(st, items.drop_last(), target, now);
        match hypothesis_spec(items.last()) {
            Some((statement, t, rationale)) => {
                let l2 = hypothesize(s1.ledger, statement, Some(or_text(t, target)), rationale, s1.evidence, now).0;
                lemma_hypothesize_grows(s1.ledger, statement, Some(or_text(t, target)), rationale, s1.evidence, now);
                lemma_grows_trans(st.ledger, s1.ledger, l2);
            },
            None => {},
        }
    }
}

proof fn lemma_conclude_grows(
    l: ResearchLedgerV,
    experiment_id: Option<Seq<char>>,
    verdict: ResultVerdict,
    summary: Seq<char>,
    evidence_ids: Seq<Seq<char>>,
    now: u64,
)
    ensures
        grows(l, conclude(l, experiment_id, verdict, summary, evidence_ids, now).0),
{
    lemma_grows_refl(l);
    let s = collapse_ws(summary);
    let id = result_id(l.run_id, or_empty(experiment_id), verdict_name(verdict), s, join_spec(evidence_ids, seq![',']));
    lemma_event_extends(l.events, l.run_id, "result"@, id, s, now);
    lemma_push_extends(l.results, ResearchResultV {
        id,
        experiment_id,
        verdict,
        summary: s,
        evidence_ids: dedup(evidence_ids),
        created_at_ms: now,
    });
}

/// Absorbing an agent's output only adds to the ledger: the run, targets and
/// experiment plans stay, and the observations, hypotheses, results and
/// events already there stay, in order, at the front; it reports at most
/// one result.
pub proof fn lemma_absorb_only_adds(
    l: ResearchLedgerV,
    node_id: Seq<char>,
    target: Seq<char>,
    agent_id: Seq<char>,
    output: Seq<char>,
    parsed: Option<Json>,
    now: u64,
)
    ensures
        grows(l, absorb_spec(l, node_id, target, agent_id, output, parsed, now).ledger),
        absorb_spec(l, node_id, target, agent_id, output, parsed, now).results.len() <= 1,
{
    match parsed {
        Some(j0) => {
            let j = unwrap_spec(j0);
            let source = agent_id + ":"@ + node_id;
            let s0 = AbsorbState {
                ledger: l,
                observations: Seq::empty(),
                hypotheses: Seq::empty(),
                results: Seq::empty(),
                evidence: Seq::empty(),
            };
            let s1 = observe_items(s0, json_items(json_get(j, "surfaces"@)), 0, target, source, now);
            let s2 = observe_items(s1, json_items(json_get(j, "evidence"@)), 1, target, source, now);
            let s3 = observe_items(s2, json_items(json_get(j, "findings"@)), 2, target, source, now);
            let s4 = propose_items(s3, json_items(json_get(j, "hypotheses"@)), target, now);
            lemma_observe_items_grows(s0, json_items(json_get(j, "surfaces"@)), 0, target, source, now);
            lemma_observe_items_grows(s1, json_items(json_get(j, "evidence"@)), 1, target, source, now);
            lemma_observe_items_grows(s2, json_items(json_get(j, "findings"@)), 2, target, source, now);
            lemma_propose_items_grows(s3, json_items(json_get(j, "hypotheses"@)), target, now);
            lemma_grows_trans(l, s1.ledger, s2.ledger);
            lemma_grows_trans(l, s2.ledger, s3.ledger);
            lemma_grows_trans(l, s3.ledger, s4.ledger);
            match json_get(j, "verdict"@) {
                Some(Json::Str(v)) => {
                    if collapse_ws(v@).len() > 0 {
                        let summary = collapse_ws(v@);
                        lemma_conclude_grows(s4.ledger, Some(node_id), verdict_spec(summary), summary, s4.evidence, now);
                        lemma_grows_trans(
                            l,
                            s4.ledger,
                            conclude(s4.ledger, Some(node_id), verdict_spec(summary), summary, s4.evidence, now).0,
                        );
                    }
                },
                _ => {},
            }
        },
        None => {
            lemma_observe_grows(
                l,
                target,
                agent_id,
                "unstructured output from "@ + node_id,
                head_1000(output),
                EvidenceConfidence::Low,
                now,
            );
        },
    }
}
} // verus!
