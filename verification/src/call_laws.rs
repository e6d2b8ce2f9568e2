//! Laws of what calls return: the laws of the spec functions, carried over to the
//! functions that callers use.

use crate::dialects::hermes;
use crate::dialects::hermes_reading;
use crate::dialects::{Dialect, DialectState, HermesParser, Llama3JsonParser};
use crate::ids;
use crate::json;
use crate::json::JsonMember;
use crate::manifest;
use crate::manifest::{version_in_range, ComponentManifest, IntegrationStatus};
use crate::manifest_laws;
use crate::parser::{Output, ParseResult};
use crate::registry;
use crate::registry::DialectRegistry;
use crate::step;
use crate::step::{StepContext, StepPlan};
use crate::text;
use crate::types::{ParseError, ParserKind};
use vstd::prelude::*;
use vstd::string::*;

verus! {

/// A version is in a range `>=w` exactly if it does not come before `w`, and in a
/// range `<w` exactly if it does.
pub proof fn law_version_in_range(
    version: &str,
    at_least: &str,
    below: &str,
    v: (u32, u32, u32),
    w: (u32, u32, u32),
    in_upper: bool,
    in_lower: bool,
)
    requires
        version@ == manifest_laws::version_text(v.0, v.1, v.2),
        at_least@ == seq!['>', '='] + manifest_laws::version_text(w.0, w.1, w.2),
        below@ == seq!['<'] + manifest_laws::version_text(w.0, w.1, w.2),
        call_ensures(version_in_range, (version, at_least), in_upper),
        call_ensures(version_in_range, (version, below), in_lower),
    ensures
        in_upper == !manifest_laws::comes_before(v, w),
        in_lower == manifest_laws::comes_before(v, w),
{
    let none = Seq::<char>::empty();
    let bound = manifest_laws::version_text(w.0, w.1, w.2);
    manifest_laws::law_range_bounds(v, w, none, none, none);
    assert(none + (seq!['>', '='] + none + bound) + none =~= at_least@);
    assert(none + (seq!['<'] + none + bound) + none =~= below@);
}

/// A manifest supports an engine if some entry that is verified or experimental names
/// it with a range that holds the version, and only then.
pub proof fn law_supports_engine(
    m: ComponentManifest,
    engine: &str,
    version: &str,
    supported: bool,
)
    requires
        call_ensures(ComponentManifest::supports_engine, (&m, engine, version), supported),
    ensures
        supported <==> exists|i: int|
            0 <= i < m.engines@.len() && (#[trigger] m.engines@[i]).engine@ == engine@
                && m.engines@[i].status != IntegrationStatus::DocumentedGap && manifest::in_range(
                version@,
                m.engines@[i].version_range@,
            ),
{
    if supported {
        let i = choose|i: int|
            0 <= i < m.engines@.len() && manifest::entry_supports(
                #[trigger] m.engines@[i],
                engine@,
                version@,
            );
        assert(m.engines@[i].engine@ == engine@);
    }
    if exists|i: int|
        0 <= i < m.engines@.len() && (#[trigger] m.engines@[i]).engine@ == engine@
            && m.engines@[i].status != IntegrationStatus::DocumentedGap && manifest::in_range(
            version@,
            m.engines@[i].version_range@,
        ) {
        let i = choose|i: int|
            0 <= i < m.engines@.len() && (#[trigger] m.engines@[i]).engine@ == engine@
                && m.engines@[i].status != IntegrationStatus::DocumentedGap && manifest::in_range(
                version@,
                m.engines@[i].version_range@,
            );
        manifest_laws::law_working_entry_supports(m.engines@, i, engine@, version@);
    }
}

/// Validation returns no errors exactly for a valid manifest, and otherwise as many
/// as there are faults.
pub proof fn law_validate(m: ComponentManifest, errors: Vec<String>)
    requires
        call_ensures(ComponentManifest::validate, (&m,), errors),
    ensures
        manifest::messages(errors@) == manifest::problems(m),
        errors@.len() == 0 <==> {
            &&& m.schema_version == 0
            &&& text::starts_with(m.name@, "infe-"@)
            &&& m.version@.len() > 0
            &&& m.capabilities@.len() > 0
            &&& m.engines@.len() > 0
            &&& forall|i: int|
                0 <= i < m.engines@.len() ==> manifest::entry_valid(#[trigger] m.engines@[i])
        },
{
    manifest::law_valid_manifests(m);
    assert(manifest::messages(errors@).len() == errors@.len());
}

/// The registry knows each dialect by its name, and no other name.
pub proof fn law_registry(
    name: &str,
    kind: Option<ParserKind>,
    created: Result<Dialect, ParseError>,
    contained: bool,
)
    requires
        call_ensures(DialectRegistry::kind, (name,), kind),
        call_ensures(DialectRegistry::create, (name,), created),
        call_ensures(DialectRegistry::contains, (name,), contained),
    ensures
        name@ == "hermes"@ ==> contained && kind == Some(ParserKind::Tool) && (created matches Ok(
            d,
        ) && d@ == DialectState::Hermes(HermesParser::initial())),
        name@ == "llama3_json"@ ==> contained && kind == Some(ParserKind::Tool) && (
        created matches Ok(d) && d@ == DialectState::Llama3Json(Llama3JsonParser::initial())),
        name@ == "deepseek_reasoning"@ ==> contained && kind == Some(ParserKind::Reasoning) && (
        created matches Ok(d) && d@ is DeepSeekReasoning),
        name@ != "hermes"@ && name@ != "llama3_json"@ && name@ != "deepseek_reasoning"@
            ==> !contained && kind is None && (created matches Err(ParseError::UnknownDialect(n))
            && n@ == name@),
{
    registry::law_registry_agrees(name@);
    registry::law_names();
}

/// The lists of the registry hold the names, each once.
pub proof fn law_registry_lists(
    all: Vec<&'static str>,
    tools: Vec<&'static str>,
    reasoning: Vec<&'static str>,
)
    requires
        call_ensures(DialectRegistry::names, (), all),
        call_ensures(DialectRegistry::tool_dialects, (), tools),
        call_ensures(DialectRegistry::reasoning_dialects, (), reasoning),
    ensures
        registry::texts(tools@) == seq!["hermes"@, "llama3_json"@],
        registry::texts(reasoning@) == seq!["deepseek_reasoning"@],
        registry::texts(all@) == seq!["hermes"@, "llama3_json"@, "deepseek_reasoning"@],
{
    assert(registry::texts(all@) =~= seq!["hermes"@, "llama3_json"@, "deepseek_reasoning"@]);
}

/// The name of a body is the quoted text behind its first `"name"` key.
pub proof fn law_extract_name(
    body: &str,
    name: Option<String>,
    at: int,
    colon: int,
    quote: int,
    end: int,
)
    requires
        call_ensures(HermesParser::extract_name, (body,), name),
        hermes_reading::names_at(body@, at, colon, quote, end),
        forall|i: int, c: int, q: int, e: int|
            i < at ==> !#[trigger] hermes_reading::names_at(body@, i, c, q, e),
    ensures
        name matches Some(n) && n@ == body@.subrange(quote + 1, end),
{
    hermes_reading::law_name_is_quoted_text(body@, at, colon, quote, end);
}

/// The arguments text of a body begins behind its key, and goes to the end; of a
/// complete body, to the brace of the wrapper object.
pub proof fn law_extract_arguments(
    body: &str,
    open: Option<String>,
    complete: Option<String>,
    at: int,
    colon: int,
    start: int,
)
    requires
        call_ensures(HermesParser::extract_arguments_raw, (body, false), open),
        call_ensures(HermesParser::extract_arguments_raw, (body, true), complete),
        hermes_reading::arguments_key_at(body@, at),
        forall|i: int| i < at ==> !#[trigger] hermes_reading::arguments_key_at(body@, i),
        at + 11 <= colon < start <= body@.len(),
        body@[colon] == ':',
        hermes_reading::without(body@, ':', at + 11, colon),
        hermes_reading::white_between(body@, colon + 1, start),
        start < body@.len() ==> !text::is_white(body@[start]),
    ensures
        open matches Some(o) && o@ == body@.skip(start),
        complete matches Some(c) && c@ == hermes::without_wrapper(body@.skip(start)),
{
    hermes_reading::law_arguments_follow_their_key(body@, at, colon, start);
}

/// The parameters of a body are the text of the member "parameters", or else
/// "arguments", at whatever place; and an empty object without either.
pub proof fn law_name_and_params_of(
    body: &str,
    members: Vec<JsonMember>,
    parts: (Option<String>, String),
    at: int,
)
    requires
        call_ensures(Llama3JsonParser::name_and_params_of, (body, &Some(members)), parts),
        forall|i: int, j: int|
            0 <= i < j < members@.len() ==> (#[trigger] members@[i]).key@ != (
            #[trigger] members@[j]).key@,
    ensures
        0 <= at < members@.len() && members@[at].key@ == "parameters"@ ==> parts.1@
            == members@[at].text@,
        0 <= at < members@.len() && members@[at].key@ == "arguments"@ && (forall|i: int|
            0 <= i < members@.len() ==> (#[trigger] members@[i]).key@ != "parameters"@) ==> parts.1@
            == members@[at].text@,
        (forall|i: int|
            0 <= i < members@.len() ==> (#[trigger] members@[i]).key@ != "parameters"@
                && members@[i].key@ != "arguments"@) ==> parts.1@ == seq!['{', '}'],
        0 <= at < members@.len() && members@[at].key@ == "name"@ && members@[at].is_string ==> (
        parts.0 matches Some(name) && name@ == members@[at].text@),
        0 <= at < members@.len() && members@[at].key@ == "name"@ && !members@[at].is_string
            ==> parts.0 is None,
        (forall|i: int| 0 <= i < members@.len() ==> (#[trigger] members@[i]).key@ != "name"@)
            ==> parts.0 is None,
{
    let views = json::members_view(Some(members))->0;
    assert(forall|i: int| 0 <= i < views.len() ==> views[i].0 == members@[i].key@);
    assert(json::distinct_keys(views)) by {
        assert forall|i: int, j: int| 0 <= i < j < views.len() implies (#[trigger] views[i]).0 != (
        #[trigger] views[j]).0 by {
            assert(members@[i].key@ != members@[j].key@);
        }
    }
    if 0 <= at < members@.len() {
        json::law_member_is_found(views, at);
        assert(views[at] == (members@[at].key@, members@[at].is_string, members@[at].text@));
    }
    if forall|i: int| 0 <= i < members@.len() ==> (#[trigger] members@[i]).key@ != "parameters"@ {
        json::law_other_keys_are_missing(views, "parameters"@);
    }
    if forall|i: int|
        0 <= i < members@.len() ==> (#[trigger] members@[i]).key@ != "parameters"@
            && members@[i].key@ != "arguments"@ {
        json::law_other_keys_are_missing(views, "parameters"@);
        json::law_other_keys_are_missing(views, "arguments"@);
        reveal_strlit("{}");
        assert("{}"@ =~= seq!['{', '}']);
    }
    if forall|i: int| 0 <= i < members@.len() ==> (#[trigger] members@[i]).key@ != "name"@ {
        json::law_other_keys_are_missing(views, "name"@);
    }
}

/// The counts of a plan are those of the requests whose decision admits or preempts.
pub proof fn law_plan_counts(plan: StepPlan, admitted: usize, preempted: usize)
    requires
        call_ensures(StepPlan::num_admitted, (&plan,), admitted),
        call_ensures(StepPlan::num_preempted, (&plan,), preempted),
    ensures
        admitted == Set::new(
            |id: u64| plan.decisions@.contains_key(id) && plan.decisions@[id] is Admit,
        ).len(),
        preempted == Set::new(
            |id: u64| plan.decisions@.contains_key(id) && plan.decisions@[id] is Preempt,
        ).len(),
{
    assert(step::admitted(plan.decisions@) =~= Set::new(
        |id: u64| plan.decisions@.contains_key(id) && plan.decisions@[id] is Admit,
    ));
    assert(step::preempted(plan.decisions@) =~= Set::new(
        |id: u64| plan.decisions@.contains_key(id) && plan.decisions@[id] is Preempt,
    ));
}

/// There is pressure where less than a tenth of the KV blocks is free, and there are
/// any.
pub proof fn law_pressure(context: StepContext, pressured: bool)
    requires
        call_ensures(StepContext::is_kv_pressured, (&context,), pressured),
    ensures
        pressured == step::kv_pressure(
            context.free_kv_blocks as nat,
            context.total_kv_blocks as nat,
        ),
{
}

/// A result is empty exactly if it has no tool-call deltas, no reasoning deltas and no
/// content.
pub proof fn law_is_empty(result: ParseResult, empty: bool)
    requires
        call_ensures(ParseResult::is_empty, (&result,), empty),
    ensures
        empty <==> result.tool_calls@.len() == 0 && result.reasoning@.len() == 0
            && result.content@.len() == 0,
{
    assert(result@.tool_calls.len() == result.tool_calls@.len());
    assert(result@.reasoning.len() == result.reasoning@.len());
    assert(result@.content.len() == result.content@.len());
    if result.tool_calls@.len() == 0 && result.reasoning@.len() == 0 && result.content@.len() == 0 {
        assert(result@ =~= Output::none());
    }
}

/// An identifier is the text of its value, and a kind says its word.
pub proof fn law_ids_and_kinds(value: u64, id: String, kind: ParserKind, word: &'static str)
    requires
        call_ensures(ids::encode_id, (value,), id),
        call_ensures(ParserKind::as_str, (kind,), word),
    ensures
        id@ == ids::id_text(value),
        ids::is_call_id(id@),
        kind == ParserKind::Tool ==> word@ == "tool"@,
        kind == ParserKind::Reasoning ==> word@ == "reasoning"@,
{
}

} // verus!
