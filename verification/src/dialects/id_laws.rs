//! What the ids are does not matter: sessions that differ in their ids alone go
//! the same way. So a parser that was reset behaves as a new one.

use crate::braces;
use crate::dialects::hermes;
use crate::dialects::hermes::{Hermes, CLOSE_MARKER};
use crate::dialects::hermes_laws;
use crate::dialects::llama3_json;
use crate::dialects::llama3_json::Llama;
use crate::dialects::{Dialect, DialectState};
use crate::json;
use crate::parser;
use crate::parser::{DialectParser, Output};
use crate::text;
use crate::types::{CallState, Delta, ToolCallState};
use vstd::prelude::*;

verus! {

/// Whether two states of a call differ in the ids alone.
pub open spec fn alike(a: CallState, b: CallState) -> bool {
    parser::call_sans_ids(a) == parser::call_sans_ids(b)
}

/// Whether two results differ in the ids alone.
pub open spec fn results_alike<V>(a: (V, CallState, Output), b: (V, CallState, Output)) -> bool {
    &&& a.0 == b.0
    &&& alike(a.1, b.1)
    &&& parser::sans_ids(a.2) == parser::sans_ids(b.2)
}

/// States that differ in the ids alone agree in everything else.
proof fn lemma_alike(a: CallState, b: CallState)
    requires
        alike(a, b),
    ensures
        a.state == b.state,
        a.buffer == b.buffer,
        a.id is Some <==> b.id is Some,
        a.index == b.index,
        a.next_index == b.next_index,
        a.emitted == b.emitted,
        a.name_emitted == b.name_emitted,
        forall|more: Seq<char>| alike(#[trigger] a.extended(more), b.extended(more)),
        alike(a.begun(), b.begun()),
        alike(a.idled(), b.idled()),
{
    let x = parser::call_sans_ids(a);
    let y = parser::call_sans_ids(b);
    assert(x.state == y.state && x.buffer == y.buffer && x.index == y.index && x.next_index
        == y.next_index && x.emitted == y.emitted && x.name_emitted == y.name_emitted && x.id
        == y.id);
}

proof fn lemma_emitted_alike(a: CallState, b: CallState, body: Seq<char>, is_complete: bool)
    requires
        alike(a, b),
    ensures
        alike(
            hermes::emitted(a, body, is_complete).0,
            hermes::emitted(b, body, is_complete).0,
        ),
        parser::deltas_sans_ids(hermes::emitted(a, body, is_complete).1)
            == parser::deltas_sans_ids(hermes::emitted(b, body, is_complete).1),
{
    lemma_alike(a, b);
    let ha = hermes::announced(a, body);
    let hb = hermes::announced(b, body);
    assert(alike(ha.0, hb.0));
    lemma_alike(ha.0, hb.0);
    assert(parser::deltas_sans_ids(ha.1) =~= parser::deltas_sans_ids(hb.1));
    let sa = hermes::streamed(ha.0, body, is_complete);
    let sb = hermes::streamed(hb.0, body, is_complete);
    assert(alike(sa.0, sb.0));
    assert(sa.1 =~= sb.1);
    assert(parser::deltas_sans_ids(ha.1 + sa.1) =~= parser::deltas_sans_ids(ha.1)
        + parser::deltas_sans_ids(sa.1));
    assert(parser::deltas_sans_ids(hb.1 + sb.1) =~= parser::deltas_sans_ids(hb.1)
        + parser::deltas_sans_ids(sb.1));
}

proof fn lemma_closing_alike(a: CallState, b: CallState, is_complete: bool)
    requires
        alike(a, b),
    ensures
        alike(hermes::closing(a, is_complete).0, hermes::closing(b, is_complete).0),
        parser::deltas_sans_ids(hermes::closing(a, is_complete).1) == parser::deltas_sans_ids(
            hermes::closing(b, is_complete).1,
        ),
{
    lemma_alike(a, b);
    lemma_emitted_alike(a, b, a.buffer, is_complete);
    let sa = hermes::emitted(a, a.buffer, is_complete);
    let sb = hermes::emitted(b, b.buffer, is_complete);
    lemma_alike(sa.0, sb.0);
    let fragment = hermes::last_fragment(sa.0);
    assert(fragment == hermes::last_fragment(sb.0));
    let da = hermes::closing_delta(sa.0, fragment);
    let db = hermes::closing_delta(sb.0, fragment);
    let map = |d: Delta| Delta { id: parser::id_mark(d.id), ..d };
    assert(map(da) == map(db));
    assert(parser::deltas_sans_ids(sa.1.push(da)) =~= parser::deltas_sans_ids(sa.1).push(map(da)));
    assert(parser::deltas_sans_ids(sb.1.push(db)) =~= parser::deltas_sans_ids(sb.1).push(map(db)));
}

proof fn lemma_step_alike(own: Hermes, a: CallState, b: CallState, text: Seq<char>)
    requires
        alike(a, b),
    ensures
        ({
            let sa = hermes::step(own, a, text);
            let sb = hermes::step(own, b, text);
            &&& sa.own == sb.own
            &&& sa.next == sb.next
            &&& alike(sa.call, sb.call)
            &&& parser::sans_ids(sa.out) == parser::sans_ids(sb.out)
        }),
{
    reveal(hermes::step);
    reveal(hermes::emitted_now);
    reveal(hermes::closed_now);
    lemma_alike(a, b);
    if a.state == ToolCallState::InToolCall {
        let chunk = if own.bare {
            match braces::balance_from(text, own.braces, 0) {
                Some(end) => text.take(end),
                None => text,
            }
        } else {
            match text::find(text, CLOSE_MARKER@) {
                Some(pos) => text.take(pos),
                None => text.take(text.len() - text::overlap(text, CLOSE_MARKER@)),
            }
        };
        let ea = a.extended(chunk);
        let eb = b.extended(chunk);
        assert(alike(ea, eb));
        let complete = json::is_json(ea.buffer);
        lemma_emitted_alike(ea, eb, ea.buffer, complete);
        lemma_closing_alike(ea, eb, complete);
    }
}

proof fn lemma_scan_alike(own: Hermes, a: CallState, b: CallState, text: Seq<char>)
    requires
        alike(a, b),
    ensures
        results_alike(hermes::scan(own, a, text), hermes::scan(own, b, text)),
    decreases text.len(), hermes::rank(a.state),
{
    lemma_alike(a, b);
    if text.len() > 0 {
        let sa = hermes::step(own, a, text);
        let sb = hermes::step(own, b, text);
        lemma_step_alike(own, a, b, text);
        lemma_alike(sa.call, sb.call);
        hermes_laws::lemma_step_sound(own, a, text);
        hermes_laws::lemma_step_sound(own, b, text);
        if let Some(next) = sa.next {
            lemma_scan_alike(sa.own, sa.call, sb.call, text.skip(next));
            parser::lemma_sans_ids(
                sa.out,
                hermes::scan(sa.own, sa.call, text.skip(next)).2,
            );
            parser::lemma_sans_ids(
                sb.out,
                hermes::scan(sb.own, sb.call, text.skip(next)).2,
            );
        }
    }
}

proof fn lemma_completed_alike(a: CallState, b: CallState)
    requires
        alike(a, b),
    ensures
        alike(llama3_json::completed_now(a).0, llama3_json::completed_now(b).0),
        parser::deltas_sans_ids(seq![llama3_json::completed_now(a).1])
            == parser::deltas_sans_ids(seq![llama3_json::completed_now(b).1]),
{
    lemma_alike(a, b);
    assert(parser::deltas_sans_ids(seq![llama3_json::completed_now(a).1])
        =~= parser::deltas_sans_ids(seq![llama3_json::completed_now(b).1]));
}

proof fn lemma_char_scan_alike(own: Llama, a: CallState, b: CallState, text: Seq<char>)
    requires
        alike(a, b),
    ensures
        results_alike(llama3_json::char_scan(own, a, text), llama3_json::char_scan(own, b, text)),
    decreases text.len(),
{
    if text.len() > 0 {
        let init = text.drop_last();
        let c = text.last();
        lemma_char_scan_alike(own, a, b, init);
        let ra = llama3_json::char_scan(own, a, init);
        let rb = llama3_json::char_scan(own, b, init);
        lemma_alike(ra.1, rb.1);
        lemma_alike(ra.1.idled(), rb.1.idled());
        lemma_alike(ra.1.begun(), rb.1.begun());
        lemma_alike(ra.1.idled().begun(), rb.1.idled().begun());
        assert(alike(ra.1.extended(seq![c]), rb.1.extended(seq![c])));
        lemma_completed_alike(ra.1.extended(seq![c]), rb.1.extended(seq![c]));
        let la = llama3_json::char_step(ra.0, ra.1, c);
        let lb = llama3_json::char_step(rb.0, rb.1, c);
        assert(alike(la.1, lb.1));
        assert(parser::sans_ids(la.2) == parser::sans_ids(lb.2));
        parser::lemma_sans_ids(ra.2, la.2);
        parser::lemma_sans_ids(rb.2, lb.2);
    }
}

/// A chunk gives the same whatever the ids are.
proof fn lemma_fed_alike(own: DialectState, a: CallState, b: CallState, text: Seq<char>)
    requires
        alike(a, b),
    ensures
        results_alike(Dialect::fed(own, a, text), Dialect::fed(own, b, text)),
{
    match own {
        DialectState::Hermes(p) => lemma_scan_alike(
            Hermes { pending: Seq::empty(), ..p },
            a,
            b,
            p.pending + text,
        ),
        DialectState::Llama3Json(p) => lemma_char_scan_alike(p, a, b, text),
        DialectState::DeepSeekReasoning(p) => {},
    }
}

/// What the ids are does not matter: a batch of chunks gives the same state and
/// the same deltas, whatever the ids in them are.
pub proof fn law_ids_do_not_matter(
    own: DialectState,
    a: CallState,
    b: CallState,
    chunks: Seq<Seq<char>>,
)
    requires
        alike(a, b),
    ensures
        results_alike(
            parser::fed_all::<Dialect>(own, a, chunks),
            parser::fed_all::<Dialect>(own, b, chunks),
        ),
    decreases chunks.len(),
{
    if chunks.len() > 0 {
        let init = chunks.drop_last();
        law_ids_do_not_matter(own, a, b, init);
        let ra = parser::fed_all::<Dialect>(own, a, init);
        let rb = parser::fed_all::<Dialect>(own, b, init);
        lemma_fed_alike(ra.0, ra.1, rb.1, chunks.last());
        parser::lemma_sans_ids(ra.2, Dialect::fed(ra.0, ra.1, chunks.last()).2);
        parser::lemma_sans_ids(rb.2, Dialect::fed(rb.0, rb.1, chunks.last()).2);
    }
}

/// The end of the stream gives the same whatever the ids are.
pub proof fn law_ids_do_not_matter_at_the_end(own: DialectState, a: CallState, b: CallState)
    requires
        alike(a, b),
    ensures
        results_alike(Dialect::finished(own, a), Dialect::finished(own, b)),
{
    lemma_alike(a, b);
    match own {
        DialectState::Hermes(p) => {
            reveal(hermes::closed_now);
            let ea = a.extended(p.pending);
            let eb = b.extended(p.pending);
            assert(alike(ea, eb));
            lemma_closing_alike(ea, eb, json::is_json(ea.buffer));
        },
        DialectState::Llama3Json(p) => lemma_completed_alike(a, b),
        DialectState::DeepSeekReasoning(p) => {},
    }
}

/// A reset leaves nothing of the request before: the parser is that of a new request,
/// and only the ids go on.
pub proof fn law_reset_starts_over(own: DialectState, call: CallState)
    ensures
        ({
            let (own1, call1) = parser::after_reset::<Dialect>(own, call);
            &&& own1 == own.fresh()
            &&& call1.state == ToolCallState::Idle
            &&& call1.buffer.len() == 0
            &&& call1.id is None && call1.index is None
            &&& call1.next_index == 0 && call1.emitted == 0
            &&& !call1.name_emitted
            &&& call1.ids == call.ids
        }),
{
}

/// A parser that was reset, in whatever state it was, behaves as a new one of
/// the same dialect: through any chunks and the end of the stream both have the
/// same state and the same deltas, apart from what the ids are.
pub proof fn law_reset_parser_is_as_new(
    before: DialectState,
    reset_ids: u64,
    new_ids: u64,
    chunks: Seq<Seq<char>>,
)
    ensures
        ({
            let again = parser::fed_all::<Dialect>(
                Dialect::restarted(before),
                CallState::fresh(reset_ids),
                chunks,
            );
            let new = parser::fed_all::<Dialect>(
                before.fresh(),
                CallState::fresh(new_ids),
                chunks,
            );
            &&& results_alike(again, new)
            &&& results_alike(
                Dialect::finished(again.0, again.1),
                Dialect::finished(new.0, new.1),
            )
        }),
{
    let a = CallState::fresh(reset_ids);
    let b = CallState::fresh(new_ids);
    assert(alike(a, b));
    law_ids_do_not_matter(before.fresh(), a, b, chunks);
    let again = parser::fed_all::<Dialect>(before.fresh(), a, chunks);
    let new = parser::fed_all::<Dialect>(before.fresh(), b, chunks);
    law_ids_do_not_matter_at_the_end(again.0, again.1, new.1);
}

} // verus!
