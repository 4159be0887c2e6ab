//! Proposing a new candidate by reflection: a language model, supplied by
//! the host, rewrites each component from a prompt built out of the current
//! text, the execution feedback and the research history.

use vstd::prelude::*;

use crate::json::{json_get, json_parse, parse_json, Json};
use crate::keyed::DeepClone;
use crate::text::{chars_of, matches_at, occurs_at, string_of, trim, trim_end, trim_start, trim_str};
use crate::textmap::TextMap;

verus! {

/// A candidate: component name -> text.
pub type Candidate = TextMap<String>;

/// A language model the host provides (over an HTTP API, a local model, a
/// command line, ...). Nothing is assumed of its answers.
pub trait LanguageModel {
    /// Completes `prompt`, returning the raw response or an error message.
    fn complete(&self, prompt: &str) -> Result<String, String>;
}

/// The default reflection prompt. Placeholders: `<curr_param>` (the
/// component's current text), `<side_info>` (the execution feedback) and
/// `<history>` (the rendered research dossier).
pub const DEFAULT_REFLECTION_TEMPLATE: &'static str = "You are improving a component of a system. Analyze the execution feedback and
propose an improved version.

## Current component text
<curr_param>

## Execution feedback (inputs, outputs, scores; higher score is better)
<side_info>

## Prior research history (observations, hypotheses, results)
<history>

## Task
Propose an improved version of the component text. Reuse prior findings before
rediscovering them. Return ONLY a JSON object mapping the component name to the
new text, e.g. {\"prompt\": \"...\"}. No markdown fences, no explanation.";

/// `s` with every occurrence of `p` (found left to right, not overlapping)
/// replaced by `t` (`str::replace`, for a non-empty `p`).
pub open spec fn replace_spec(s: Seq<char>, p: Seq<char>, t: Seq<char>) -> Seq<char>
    recommends
        p.len() > 0,
    decreases s.len(),
{
    if s.len() == 0 || p.len() == 0 {
        s
    } else if occurs_at(s, p, 0) {
        t + replace_spec(s.skip(p.len() as int), p, t)
    } else {
        seq![s[0]] + replace_spec(s.skip(1), p, t)
    }
}

/// `s` with every occurrence of the non-empty `p` replaced by `t`.
pub fn replace_all(s: &str, p: &str, t: &str) -> (r: String)
    requires
        p@.len() > 0,
    ensures
        r@ == replace_spec(s@, p@, t@),
{
    let cs = chars_of(s);
    let pc = chars_of(p);
    let tc = chars_of(t);
    let mut out: Vec<char> = Vec::new();
    let mut i: usize = 0;
    assert(cs@.skip(0) =~= cs@);
    while i < cs.len()
        invariant
            i <= cs@.len(),
            cs@ == s@,
            pc@ == p@,
            tc@ == t@,
            pc@.len() > 0,
            out@ + replace_spec(cs@.skip(i as int), p@, t@) == replace_spec(s@, p@, t@),
        decreases cs@.len() - i,
    {
        let ghost rest = cs@.skip(i as int);
        if pc.len() <= cs.len() - i && matches_at(&cs, &pc, i) {
            assert(rest.subrange(0, pc@.len() as int) =~= cs@.subrange(i as int, i + pc@.len()));
            assert(occurs_at(rest, p@, 0));
            assert(rest.skip(pc@.len() as int) =~= cs@.skip(i + pc@.len()));
            let ghost before = out@;
            let mut j: usize = 0;
            while j < tc.len()
                invariant
                    j <= tc@.len(),
                    out@ == before + tc@.take(j as int),
                decreases tc@.len() - j,
            {
                out.push(tc[j]);
                j = j + 1;
                assert(out@ =~= before + tc@.take(j as int));
            }
            assert(tc@.take(tc@.len() as int) =~= tc@);
            assert(before + (t@ + replace_spec(cs@.skip(i + pc@.len()), p@, t@)) =~= out@ + replace_spec(
                cs@.skip(i + pc@.len()),
                p@,
                t@,
            ));
            i = i + pc.len();
        } else {
            proof {
                if i + pc.len() <= cs.len() {
                    assert(rest.subrange(0, pc@.len() as int) =~= cs@.subrange(i as int, i + pc@.len()));
                }
            }
            assert(!occurs_at(rest, p@, 0));
            assert(rest.skip(1) =~= cs@.skip(i + 1));
            let ghost before = out@;
            out.push(cs[i]);
            assert(before + (seq![cs@[i as int]] + replace_spec(cs@.skip(i + 1), p@, t@)) =~= out@
                + replace_spec(cs@.skip(i + 1), p@, t@));
            i = i + 1;
        }
    }
    assert(out@ + replace_spec(cs@.skip(i as int), p@, t@) =~= out@);
    string_of(&out)
}

/// `s` without any trailing run of the non-empty `p`, as
/// `str::trim_end_matches` removes it.
pub open spec fn strip_suffixes(s: Seq<char>, p: Seq<char>) -> Seq<char>
    decreases s.len(),
{
    let n = s.len() - p.len();
    if p.len() > 0 && n >= 0 && s.skip(n) == p {
        strip_suffixes(s.take(n), p)
    } else {
        s
    }
}

/// The body of a language-model response: trimmed, without an opening
/// code fence (three backticks, with or without `json`) and any closing
/// ones, trimmed again.
pub open spec fn response_body(response: Seq<char>) -> Seq<char> {
    let t = trim(response);
    let opened = if t.len() >= 7 && t.take(7) == "```json"@ {
        trim_start(t.skip(7))
    } else if t.len() >= 3 && t.take(3) == "```"@ {
        trim_start(t.skip(3))
    } else {
        t
    };
    trim(strip_suffixes(opened, "```"@))
}

/// The new text a response gives for `component`: the string under that
/// name in the JSON object it holds, or the JSON string it is.
pub open spec fn parse_response_spec(response: Seq<char>, component: Seq<char>) -> Option<Seq<char>> {
    match json_parse(response_body(response)) {
        Some(j) => match json_get(j, component) {
            Some(Json::Str(s)) => Some(s@),
            _ => match j {
                Json::Str(s) => Some(s@),
                _ => None,
            },
        },
        None => None,
    }
}

/// Whether `cs` starts with `p`.
fn starts_with_chars(cs: &Vec<char>, p: &str) -> (r: bool)
    ensures
        r == (cs@.len() >= p@.len() && cs@.take(p@.len() as int) == p@),
{
    let pc = chars_of(p);
    if pc.len() > cs.len() {
        return false;
    }
    let r = matches_at(cs, &pc, 0);
    assert(cs@.subrange(0, pc@.len() as int) =~= cs@.take(pc@.len() as int));
    r
}

/// The body of a language-model response (see [`response_body`]).
pub fn response_body_of(response: &str) -> (r: String)
    ensures
        r@ == response_body(response@),
{
    let t = trim_str(response);
    let tc = chars_of(t.as_str());
    proof {
        reveal_strlit("```json");
        reveal_strlit("```");
    }
    let skip: usize = if starts_with_chars(&tc, "```json") {
        7
    } else if starts_with_chars(&tc, "```") {
        3
    } else {
        0
    };
    let mut opened: Vec<char> = Vec::new();
    let mut i: usize = skip;
    while i < tc.len()
        invariant
            skip <= i <= tc@.len(),
            opened@ == tc@.subrange(skip as int, i as int),
        decreases tc@.len() - i,
    {
        opened.push(tc[i]);
        i = i + 1;
        assert(opened@ =~= tc@.subrange(skip as int, i as int));
    }
    let ghost t0 = tc@.skip(skip as int);
    assert(opened@ =~= t0);
    let opened_text = string_of(&opened);
    let lead = if skip > 0 {
        trim_start_str(opened_text.as_str())
    } else {
        opened_text
    };
    let mut lc = chars_of(lead.as_str());
    let ghost l0 = lc@;
    let fence = chars_of("```");
    let ghost f = fence@;
    assert(strip_suffixes(l0, "```"@) == strip_suffixes(lc@, "```"@));
    while lc.len() >= 3 && matches_at(&lc, &fence, lc.len() - 3)
        invariant
            fence@ == "```"@,
            fence@.len() == 3,
            strip_suffixes(l0, "```"@) == strip_suffixes(lc@, "```"@),
        decreases lc@.len(),
    {
        let ghost before = lc@;
        assert(before.subrange(before.len() - 3, before.len() as int) =~= before.skip(before.len() - 3));
        lc.pop();
        lc.pop();
        lc.pop();
        assert(lc@ =~= before.take(before.len() - 3));
    }
    proof {
        if lc@.len() >= 3 {
            assert(lc@.subrange(lc@.len() - 3, lc@.len() as int) =~= lc@.skip(lc@.len() - 3));
        }
    }
    let stripped = string_of(&lc);
    proof {
        let tt = trim(response@);
        assert(tc@ == tt);
        if skip == 0 {
            assert(t0 =~= tt);
        }
        assert(lead@ == (if tt.len() >= 7 && tt.take(7) == "```json"@ {
            trim_start(tt.skip(7))
        } else if tt.len() >= 3 && tt.take(3) == "```"@ {
            trim_start(tt.skip(3))
        } else {
            tt
        }));
        assert(strip_suffixes(lc@, "```"@) == lc@);
    }
    trim_str(stripped.as_str())
}

/// `s` without leading white space.
fn trim_start_str(s: &str) -> (r: String)
    ensures
        r@ == trim_start(s@),
{
    let cs = chars_of(s);
    let mut i: usize = 0;
    assert(cs@.skip(0) =~= cs@);
    while i < cs.len() && crate::text::is_whitespace(cs[i])
        invariant
            i <= cs@.len(),
            cs@ == s@,
            trim_start(s@) == trim_start(cs@.skip(i as int)),
        decreases cs@.len() - i,
    {
        assert(cs@.skip(i as int).drop_first() =~= cs@.skip(i + 1));
        i = i + 1;
    }
    let mut out: Vec<char> = Vec::new();
    let mut j: usize = i;
    while j < cs.len()
        invariant
            i <= j <= cs@.len(),
            out@ == cs@.subrange(i as int, j as int),
        decreases cs@.len() - j,
    {
        out.push(cs[j]);
        j = j + 1;
        assert(out@ =~= cs@.subrange(i as int, j as int));
    }
    assert(out@ =~= cs@.skip(i as int));
    string_of(&out)
}

/// The new text a response gives for `component` (see
/// [`parse_response_spec`]).
pub fn parse_component_response(response: &str, component: &str) -> (r: Option<String>)
    ensures
        match r {
            Some(s) => parse_response_spec(response@, component@) == Some(s@),
            None => parse_response_spec(response@, component@) is None,
        },
{
    let body = response_body_of(response);
    match parse_json(body.as_str()) {
        Some(j) => {
            match j.get(component) {
                Some(v) => match v.as_str() {
                    Some(text) => {
                        return Some(text.to_owned());
                    },
                    None => {},
                },
                None => {},
            }
            match j.as_str() {
                Some(text) => Some(text.to_owned()),
                None => None,
            }
        },
        None => None,
    }
}


/// The reflection prompt: `template` with its placeholders filled in, in
/// the order `<curr_param>`, `<side_info>`, `<history>`.
pub open spec fn prompt_spec(template: Seq<char>, curr: Seq<char>, side_info: Seq<char>, history: Seq<char>) -> Seq<char> {
    replace_spec(
        replace_spec(replace_spec(template, "<curr_param>"@, curr), "<side_info>"@, side_info),
        "<history>"@,
        history,
    )
}

/// The new text of `component` from the language model's `response`: what
/// it gives for the component, or the whole response trimmed.
pub open spec fn reply_text(response: Seq<char>, component: Seq<char>) -> Seq<char> {
    match parse_response_spec(response, component) {
        Some(t) => t,
        None => trim(response),
    }
}

/// `base` with each component of `components` set to the text the matching
/// response of `responses` gives for it, in order.
pub open spec fn proposal_spec(
    base: Map<Seq<char>, Seq<char>>,
    components: Seq<Seq<char>>,
    responses: Seq<Seq<char>>,
) -> Map<Seq<char>, Seq<char>>
    decreases components.len(),
{
    if components.len() == 0 || responses.len() == 0 {
        base
    } else {
        proposal_spec(base, components.drop_last(), responses.drop_last()).insert(
            components.last(),
            reply_text(responses.last(), components.last()),
        )
    }
}

/// The text under `k` in `m`, or nothing.
pub open spec fn text_or_empty(m: Map<Seq<char>, Seq<char>>, k: Seq<char>) -> Seq<char> {
    if m.dom().contains(k) {
        m[k]
    } else {
        Seq::empty()
    }
}

/// The history a reflection prompt shows: the one given, or `(none yet)`.
pub open spec fn history_text(history: Option<&str>) -> Seq<char> {
    match history {
        Some(h) => h@,
        None => "(none yet)"@,
    }
}

/// The reflection prompt for component `c` of a candidate `parent`, with
/// feedback from `side` and the history `hist`.
pub open spec fn prompt_for(
    template: Seq<char>,
    parent: Map<Seq<char>, Seq<char>>,
    side: Map<Seq<char>, Seq<char>>,
    hist: Seq<char>,
    c: Seq<char>,
) -> Seq<char> {
    prompt_spec(template, text_or_empty(parent, c), text_or_empty(side, c), hist)
}

/// The texts of `s`.
pub open spec fn string_views(s: Seq<String>) -> Seq<Seq<char>> {
    Seq::new(s.len(), |i: int| s[i]@)
}

/// Proposes new component texts by reflection, with an injected language
/// model.
pub struct ReflectiveMutation<L: LanguageModel> {
    lm: L,
    template: String,
}

impl<L: LanguageModel> ReflectiveMutation<L> {
    /// The prompt template in use.
    pub closed spec fn template_text(&self) -> Seq<char> {
        self.template@
    }

    /// A proposer asking `lm` with the default template.
    pub fn new(lm: L) -> (r: Self)
        ensures
            r.template_text() == DEFAULT_REFLECTION_TEMPLATE@,
    {
        ReflectiveMutation { lm, template: DEFAULT_REFLECTION_TEMPLATE.to_owned() }
    }

    /// This proposer with its template replaced.
    pub fn with_template(self, template: &str) -> (r: Self)
        ensures
            r.template_text() == template@,
    {
        ReflectiveMutation { lm: self.lm, template: template.to_owned() }
    }

    /// The reflection prompt for a component whose text is `curr`, with
    /// feedback `side_info` and research `history`.
    pub fn reflection_prompt(&self, curr: &str, side_info: &str, history: &str) -> (r: String)
        ensures
            r@ == prompt_spec(self.template_text(), curr@, side_info@, history@),
    {
        proof {
            reveal_strlit("<curr_param>");
            reveal_strlit("<side_info>");
            reveal_strlit("<history>");
        }
        let a = replace_all(self.template.as_str(), "<curr_param>", curr);
        let b = replace_all(a.as_str(), "<side_info>", side_info);
        replace_all(b.as_str(), "<history>", history)
    }

    /// The language model asked.
    pub closed spec fn model(&self) -> L {
        self.lm
    }

    /// Whether the model was asked, for each of the first `rs.len()`
    /// components of `comps`, once, with the prompt `ps[i]` filled for that
    /// component, and answered `rs[i]`.
    pub open spec fn asked(
        &self,
        parent: Map<Seq<char>, Seq<char>>,
        side: Map<Seq<char>, Seq<char>>,
        comps: Seq<Seq<char>>,
        hist: Seq<char>,
        ps: Seq<&str>,
        rs: Seq<String>,
    ) -> bool {
        &&& ps.len() == rs.len()
        &&& rs.len() <= comps.len()
        &&& forall|i: int|
            0 <= i < rs.len() ==> (#[trigger] ps[i])@ == prompt_for(self.template_text(), parent, side, hist, comps[i])
                && call_ensures(L::complete, (&self.model(), ps[i]), Ok::<String, String>(rs[i]))
    }

    /// A new candidate from `parent`: each of `components` rewritten, in
    /// order, by one call of the language model on its reflection prompt
    /// (the component's current text, its feedback from `side_infos`, empty
    /// when missing, and `history`, or `(none yet)`), the answer giving the
    /// new text. Fails with the first error the model reports, so never where
    /// there is no component to rewrite (the parent comes back unchanged).
    pub fn propose_with(
        &self,
        parent: &Candidate,
        side_infos: &TextMap<String>,
        components: &Vec<String>,
        history: Option<&str>,
    ) -> (r: Result<Candidate, String>)
        ensures
            components@.len() == 0 ==> (r matches Ok(m) && m.deep_view() == parent.deep_view()),
            r matches Ok(m) ==> exists|ps: Seq<&str>, rs: Seq<String>|
                #![trigger self.asked(parent.deep_view(), side_infos.deep_view(), components.deep_view(), history_text(history), ps, rs)]
                self.asked(parent.deep_view(), side_infos.deep_view(), components.deep_view(), history_text(history), ps, rs)
                    && rs.len() == components@.len() && m.deep_view() == proposal_spec(
                    parent.deep_view(),
                    components.deep_view(),
                    string_views(rs),
                ),
            r matches Err(e) ==> exists|ps: Seq<&str>, rs: Seq<String>, p: &str|
                #![trigger self.asked(parent.deep_view(), side_infos.deep_view(), components.deep_view(), history_text(history), ps, rs), p@]
                self.asked(parent.deep_view(), side_infos.deep_view(), components.deep_view(), history_text(history), ps, rs)
                    && rs.len() < components@.len() && p@ == prompt_for(
                    self.template_text(),
                    parent.deep_view(),
                    side_infos.deep_view(),
                    history_text(history),
                    components.deep_view()[rs.len() as int],
                ) && call_ensures(L::complete, (&self.model(), p), Err::<String, String>(e)),
    {
        let mut out = parent.deep_clone();
        let hist: &str = match history {
            Some(h) => h,
            None => "(none yet)",
        };
        let ghost cv = components.deep_view();
        let ghost pv = parent.deep_view();
        let ghost sv = side_infos.deep_view();
        let ghost hv = history_text(history);
        let ghost mut ps: Seq<&str> = Seq::empty();
        let ghost mut rs: Seq<String> = Seq::empty();
        let mut i: usize = 0;
        while i < components.len()
            invariant
                i <= components@.len(),
                cv == components.deep_view(),
                pv == parent.deep_view(),
                sv == side_infos.deep_view(),
                hv == history_text(history),
                hist@ == hv,
                rs.len() == i,
                self.asked(pv, sv, cv, hv, ps, rs),
                out.deep_view() == proposal_spec(pv, cv.take(i as int), string_views(rs)),
            decreases components@.len() - i,
        {
            let component = &components[i];
            let curr: String = match parent.get(component.as_str()) {
                Some(text) => text.clone(),
                None => String::new(),
            };
            let side: String = match side_infos.get(component.as_str()) {
                Some(text) => text.clone(),
                None => String::new(),
            };
            let prompt = self.reflection_prompt(curr.as_str(), side.as_str(), hist);
            proof {
                assert(cv[i as int] == component@);
            }
            let p: &str = prompt.as_str();
            let answer = self.lm.complete(p);
            let response = match answer {
                Ok(text) => text,
                Err(e) => {
                    assert(p@ == prompt_for(self.template_text(), pv, sv, hv, cv[rs.len() as int]));
                    return Err(e);
                },
            };
            let text = match parse_component_response(response.as_str(), component.as_str()) {
                Some(t) => t,
                None => trim_str(response.as_str()),
            };
            let ghost before = out.deep_view();
            out.insert(component.clone(), text);
            proof {
                let ps0 = ps;
                let rs0 = rs;
                ps = ps.push(p);
                rs = rs.push(response);
                assert forall|j: int| 0 <= j < rs.len() implies (#[trigger] ps[j])@ == prompt_for(
                    self.template_text(),
                    pv,
                    sv,
                    hv,
                    cv[j],
                ) && call_ensures(L::complete, (&self.model(), ps[j]), Ok::<String, String>(rs[j])) by {
                    if j < rs0.len() {
                        assert(ps[j] == ps0[j] && rs[j] == rs0[j]);
                    }
                }
                assert(cv.take(i + 1).drop_last() =~= cv.take(i as int));
                assert(string_views(rs) =~= string_views(rs0).push(response@));
                assert(string_views(rs).drop_last() =~= string_views(rs0));
                assert(out.deep_view() =~= before.insert(component@, reply_text(response@, component@)));
            }
            i = i + 1;
        }
        assert(cv.take(cv.len() as int) =~= cv);
        Ok(out)
    }
}
} // verus!
