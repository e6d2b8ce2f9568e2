//! Laws of manifests: what versions, ranges and faults mean.

use crate::manifest;
use crate::manifest::{ComponentManifest, EngineSupport, IntegrationStatus, ManifestCapability};
use crate::text;
use crate::text_laws;
use vstd::prelude::*;
use vstd::string::*;

verus! {

/// If some entry names the engine, is verified or experimental, and its range
/// holds the version, the engine is supported at that version, whatever the other
/// entries say.
pub proof fn law_working_entry_supports(
    engines: Seq<EngineSupport>,
    at: int,
    engine: Seq<char>,
    version: Seq<char>,
)
    requires
        0 <= at < engines.len(),
        engines[at].engine@ == engine,
        engines[at].status == IntegrationStatus::Verified || engines[at].status
            == IntegrationStatus::Experimental,
        manifest::in_range(version, engines[at].version_range@),
    ensures
        manifest::supports(engines, engine, version),
{
    assert(manifest::entry_supports(engines[at], engine, version));
}

/// An engine that no entry names, or whose entries all have other ranges, is not
/// supported.
pub proof fn law_other_engines_are_not_supported(
    engines: Seq<EngineSupport>,
    engine: Seq<char>,
    version: Seq<char>,
)
    requires
        forall|i: int|
            0 <= i < engines.len() ==> (#[trigger] engines[i]).engine@ != engine
                || !manifest::in_range(version, engines[i].version_range@),
    ensures
        !manifest::supports(engines, engine, version),
{
}

/// The order and the number of the entries do not matter: an engine is supported
/// by two lists together if and only if one of them supports it.
pub proof fn law_support_adds_up(
    a: Seq<EngineSupport>,
    b: Seq<EngineSupport>,
    engine: Seq<char>,
    version: Seq<char>,
)
    ensures
        manifest::supports(a + b, engine, version) <==> manifest::supports(a, engine, version)
            || manifest::supports(b, engine, version),
{
    if manifest::supports(a, engine, version) {
        let i = choose|i: int|
            0 <= i < a.len() && manifest::entry_supports(#[trigger] a[i], engine, version);
        assert((a + b)[i] == a[i]);
    }
    if manifest::supports(b, engine, version) {
        let i = choose|i: int|
            0 <= i < b.len() && manifest::entry_supports(#[trigger] b[i], engine, version);
        assert((a + b)[a.len() + i] == b[i]);
    }
    if manifest::supports(a + b, engine, version) {
        let i = choose|i: int|
            0 <= i < (a + b).len() && manifest::entry_supports(
                #[trigger] (a + b)[i],
                engine,
                version,
            );
        if i < a.len() {
            assert(manifest::entry_supports(a[i], engine, version));
        } else {
            assert(manifest::entry_supports(b[i - a.len()], engine, version));
        }
    }
}

/// The text of a version with three numbers.
pub open spec fn version_text(a: u32, b: u32, c: u32) -> Seq<char> {
    text::decimal(a as nat) + seq!['.'] + (text::decimal(b as nat) + seq!['.'] + text::decimal(
        c as nat,
    ))
}

/// Decimal digits hold no other character.
proof fn lemma_digits(n: nat, c: char)
    requires
        !text::is_digit(c),
    ensures
        !text::decimal(n).contains(c),
        text::decimal(n).len() > 0,
        forall|i: int|
            0 <= i < text::decimal(n).len() ==> !text::is_white(#[trigger] text::decimal(n)[i]),
{
    text_laws::law_decimal_is_a_number(n);
    let d = text::decimal(n);
    assert forall|i: int| 0 <= i < d.len() implies !text::is_white(#[trigger] d[i]) by {
        assert(text::is_digit(d[i]));
    }
    if d.contains(c) {
        let i = choose|i: int| 0 <= i < d.len() && d[i] == c;
        assert(text::is_digit(d[i]));
    }
}

/// A part of a version that is a number, with white space around it or a plus in
/// front, is that number.
pub proof fn law_part_is_its_number(n: u32, before: Seq<char>, behind: Seq<char>)
    requires
        text::all_white(before),
        text::all_white(behind),
    ensures
        manifest::version_part(before + text::decimal(n as nat) + behind) == n,
        manifest::version_part(before + (seq!['+'] + text::decimal(n as nat)) + behind) == n,
{
    let d = text::decimal(n as nat);
    let plus = seq!['+'] + d;
    lemma_digits(n as nat, '.');
    text_laws::law_decimal_is_a_number(n as nat);
    text_laws::law_decimal_reads_back(n as nat);
    assert(text::is_digit(d[0]));
    assert(!text::is_white(d[d.len() - 1]));
    text_laws::law_trim_takes_white_space(before, d, behind);
    assert(!text::is_white('+'));
    assert(plus.last() == d.last());
    text_laws::law_trim_takes_white_space(before, plus, behind);
    assert(plus.skip(1) =~= d);
}

/// A part of a version that is not a number, or one too large for 32 bits, counts
/// as 0.
pub proof fn law_other_parts_are_zero(text: Seq<char>, n: nat)
    requires
        n > u32::MAX,
    ensures
        !text::is_number(text::trim(text)) && (text::trim(text).len() == 0 || text::trim(text)[0]
            != '+') ==> manifest::version_part(text) == 0,
        manifest::version_part(text::decimal(n)) == 0,
{
    let d = text::decimal(n);
    lemma_digits(n, '.');
    text_laws::law_decimal_is_a_number(n);
    text_laws::law_decimal_reads_back(n);
    assert(text::is_digit(d[0]));
    assert(!text::is_white(d[d.len() - 1]));
    let none = Seq::<char>::empty();
    text_laws::law_trim_takes_white_space(none, d, none);
    assert(none + d + none =~= d);
}

/// The numbers of a version are the numbers in its text, and those that are left
/// out are 0.
pub proof fn law_version_numbers(a: u32, b: u32, c: u32)
    ensures
        manifest::version_of(version_text(a, b, c)) == (a as nat, b as nat, c as nat),
        manifest::version_of(
            text::decimal(a as nat) + seq!['.'] + text::decimal(b as nat),
        ) == (a as nat, b as nat, 0nat),
        manifest::version_of(text::decimal(a as nat)) == (a as nat, 0nat, 0nat),
{
    let x = text::decimal(a as nat);
    let y = text::decimal(b as nat);
    let z = text::decimal(c as nat);
    lemma_digits(a as nat, '.');
    lemma_digits(b as nat, '.');
    lemma_digits(c as nat, '.');
    text_laws::law_split_nothing(x, '.');
    text_laws::law_split_nothing(y, '.');
    text_laws::law_split_nothing(z, '.');
    text_laws::law_split_joined(y, z, '.');
    text_laws::law_split_joined(x, y, '.');
    text_laws::law_split_joined(x, y + seq!['.'] + z, '.');
    let none = Seq::<char>::empty();
    law_part_is_its_number(a, none, none);
    law_part_is_its_number(b, none, none);
    law_part_is_its_number(c, none, none);
    assert(none + x + none =~= x);
    assert(none + y + none =~= y);
    assert(none + z + none =~= z);
    assert(text::split(version_text(a, b, c), '.') =~= seq![x, y, z]);
    assert(text::split(x + seq!['.'] + y, '.') =~= seq![x, y]);
}

/// A version is read part by part, between the dots. Parts behind the third do not
/// count.
pub proof fn law_version_of_parts(a: Seq<char>, b: Seq<char>, c: Seq<char>, more: Seq<char>)
    requires
        !a.contains('.'),
        !b.contains('.'),
        !c.contains('.'),
    ensures
        ({
            let numbers = (
                manifest::version_part(a),
                manifest::version_part(b),
                manifest::version_part(c),
            );
            let three = a + seq!['.'] + (b + seq!['.'] + c);
            &&& manifest::version_of(three) == numbers
            &&& manifest::version_of(three + seq!['.'] + more) == numbers
        }),
{
    let three = a + seq!['.'] + (b + seq!['.'] + c);
    text_laws::law_split_nothing(a, '.');
    text_laws::law_split_nothing(b, '.');
    text_laws::law_split_nothing(c, '.');
    text_laws::law_split_joined(b, c, '.');
    text_laws::law_split_joined(a, b + seq!['.'] + c, '.');
    text_laws::law_split_joined(three, more, '.');
    assert(text::split(three, '.') =~= seq![a, b, c]);
    let longer = text::split(three + seq!['.'] + more, '.');
    assert(longer[0] == a && longer[1] == b && longer[2] == c);
}

/// Whether a version comes before another: by the first number in which they
/// differ.
pub open spec fn comes_before(v: (u32, u32, u32), w: (u32, u32, u32)) -> bool {
    if v.0 != w.0 {
        v.0 < w.0
    } else if v.1 != w.1 {
        v.1 < w.1
    } else {
        v.2 < w.2
    }
}

/// The characters of a version text.
proof fn lemma_version_text(v: (u32, u32, u32))
    ensures
        ({
            let t = version_text(v.0, v.1, v.2);
            &&& t.len() > 0
            &&& !text::is_white(t[0]) && !text::is_white(t.last())
            &&& !t.contains(',')
        }),
{
    let x = text::decimal(v.0 as nat);
    let y = text::decimal(v.1 as nat);
    let z = text::decimal(v.2 as nat);
    lemma_digits(v.0 as nat, ',');
    lemma_digits(v.1 as nat, ',');
    lemma_digits(v.2 as nat, ',');
    let t = version_text(v.0, v.1, v.2);
    assert(t[0] == x[0]);
    assert(t.last() == z[z.len() - 1]);
    if t.contains(',') {
        let i = choose|i: int| 0 <= i < t.len() && t[i] == ',';
        let n = x.len() as int;
        let m = y.len() as int;
        if i < n {
            assert(x[i] == ',');
            assert(x.contains(','));
        } else if n < i < n + 1 + m {
            assert(y[i - n - 1] == ',');
            assert(y.contains(','));
        } else if i > n + 1 + m {
            assert(z[i - n - m - 2] == ',');
            assert(z.contains(','));
        }
    }
}

/// A range `>=w` holds exactly the versions that do not come before `w`, and a
/// range `<w` exactly those that do, however much white space there is around the
/// sign and the version.
pub proof fn law_range_bounds(
    v: (u32, u32, u32),
    w: (u32, u32, u32),
    before: Seq<char>,
    between: Seq<char>,
    behind: Seq<char>,
)
    requires
        text::all_white(before),
        text::all_white(between),
        text::all_white(behind),
    ensures
        ({
            let version = version_text(v.0, v.1, v.2);
            let bound = version_text(w.0, w.1, w.2);
            let at_least = before + (seq!['>', '='] + between + bound) + behind;
            let below = before + (seq!['<'] + between + bound) + behind;
            &&& manifest::in_range(version, at_least) <==> !comes_before(v, w)
            &&& manifest::in_range(version, below) <==> comes_before(v, w)
        }),
{
    reveal_strlit(">=");
    reveal_strlit("<");
    let version = version_text(v.0, v.1, v.2);
    let bound = version_text(w.0, w.1, w.2);
    law_version_numbers(v.0, v.1, v.2);
    law_version_numbers(w.0, w.1, w.2);
    lemma_version_text(w);
    assert(">="@ =~= seq!['>', '=']);
    assert("<"@ =~= seq!['<']);
    let none = Seq::<char>::empty();
    text_laws::law_trim_takes_white_space(between, bound, none);
    assert(between + bound + none =~= between + bound);

    let c1 = seq!['>', '='] + between + bound;
    let r1 = before + c1 + behind;
    assert(c1[0] == '>' && c1.last() == bound.last());
    text_laws::law_trim_takes_white_space(before, c1, behind);
    lemma_no_comma(before, seq!['>', '='] + between, bound, behind);
    assert(before + (seq!['>', '='] + between + bound) + behind == r1);
    text_laws::law_split_nothing(r1, ',');
    assert(text::split(r1, ',')[0] == r1);
    assert(c1.subrange(0, 2) =~= ">="@);
    assert(c1.skip(2) =~= between + bound);
    assert(manifest::meets(manifest::version_of(version), r1) <==> !comes_before(v, w));

    let c2 = seq!['<'] + between + bound;
    let r2 = before + c2 + behind;
    assert(c2[0] == '<' && c2.last() == bound.last());
    text_laws::law_trim_takes_white_space(before, c2, behind);
    lemma_no_comma(before, seq!['<'] + between, bound, behind);
    text_laws::law_split_nothing(r2, ',');
    assert(text::split(r2, ',')[0] == r2);
    assert(c2.subrange(0, 1) =~= "<"@);
    assert(!text::starts_with(c2, ">="@)) by {
        if c2.len() >= 2 {
            assert(c2.subrange(0, 2)[0] == '<');
        }
    }
    assert(c2.skip(1) =~= between + bound);
    assert(manifest::meets(manifest::version_of(version), r2) <==> comes_before(v, w));
}

/// White space, a sign and a version hold no comma.
proof fn lemma_no_comma(
    before: Seq<char>,
    sign: Seq<char>,
    bound: Seq<char>,
    behind: Seq<char>,
)
    requires
        text::all_white(before),
        text::all_white(behind),
        forall|i: int|
            0 <= i < sign.len() ==> (#[trigger] sign[i] == '<' || sign[i] == '>' || sign[i] == '='
                || text::is_white(sign[i])),
        !bound.contains(','),
    ensures
        !(before + (sign + bound) + behind).contains(','),
{
    let all = before + (sign + bound) + behind;
    assert(!text::is_white(','));
    if all.contains(',') {
        let i = choose|i: int| 0 <= i < all.len() && all[i] == ',';
        let n = before.len() as int;
        let m = n + sign.len();
        let k = m + bound.len();
        if i < n {
            assert(before[i] == ',');
        } else if i < m {
            assert(sign[i - n] == ',');
        } else if i < k {
            assert(bound[i - m] == ',');
        } else {
            assert(behind[i - k] == ',');
        }
    }
}

/// Text that is no bound constrains nothing.
pub proof fn law_other_constraints_hold_all(version: Seq<char>, constraint: Seq<char>)
    requires
        !constraint.contains(','),
        !constraint.contains('<'),
        !constraint.contains('>'),
    ensures
        manifest::in_range(version, constraint),
{
    reveal_strlit(">=");
    reveal_strlit("<");
    text_laws::law_split_nothing(constraint, ',');
    let c = text::trim(constraint);
    lemma_trim_inside(constraint);
    if text::starts_with(c, ">="@) {
        assert(c.subrange(0, 2)[0] == c[0]);
        assert(c.contains('>'));
    }
    if text::starts_with(c, "<"@) {
        assert(c.subrange(0, 1)[0] == c[0]);
        assert(c.contains('<'));
    }
    assert(text::split(constraint, ',')[0] == constraint);
}

proof fn lemma_trim_inside(text: Seq<char>)
    ensures
        forall|c: char| #[trigger] text::trim(text).contains(c) ==> text.contains(c),
{
    let a = text::trim_start(text);
    text::lemma_skip_white(text, 0);
    lemma_trim_end_inside(a);
    assert forall|c: char| #[trigger] text::trim(text).contains(c) implies text.contains(c) by {
        assert(a.contains(c));
        let i = choose|i: int| 0 <= i < a.len() && a[i] == c;
        assert(text[text::skip_white(text, 0) + i] == c);
    }
}

proof fn lemma_trim_end_inside(text: Seq<char>)
    ensures
        forall|c: char| #[trigger] text::trim_end(text).contains(c) ==> text.contains(c),
    decreases text.len(),
{
    if text.len() > 0 && text::is_white(text.last()) {
        let init = text.drop_last();
        lemma_trim_end_inside(init);
        assert forall|c: char| #[trigger] text::trim_end(text).contains(c) implies text.contains(
            c,
        ) by {
            assert(text::trim_end(init).contains(c));
            let i = choose|i: int| 0 <= i < init.len() && init[i] == c;
            assert(text[i] == c);
        }
    }
}

/// A custom capability says its name, all of it.
pub proof fn law_custom_capability(name: String)
    ensures
        ManifestCapability::Custom(name).text() == "custom:"@ + name@,
{
}

/// One where something holds, and none where it does not.
pub open spec fn one_if(holds: bool) -> nat {
    if holds {
        1
    } else {
        0
    }
}

/// How many faults an engine entry has: an unknown engine, and a missing range.
pub open spec fn entry_faults(e: EngineSupport) -> nat {
    one_if(e.engine@ != "vllm"@ && e.engine@ != "sglang"@) + one_if(e.version_range@.len() == 0)
}

/// How many faults engine entries have.
pub open spec fn all_entry_faults(engines: Seq<EngineSupport>) -> nat
    decreases engines.len(),
{
    if engines.len() == 0 {
        0
    } else {
        all_entry_faults(engines.drop_last()) + entry_faults(engines.last())
    }
}

proof fn lemma_entry_faults(engines: Seq<EngineSupport>, at: int)
    ensures
        manifest::engine_problems(engines).len() == all_entry_faults(engines),
        0 <= at < engines.len() && engines[at].engine@ != "vllm"@ && engines[at].engine@
            != "sglang"@ ==> manifest::engine_problems(engines).contains(
            "unknown engine '"@ + engines[at].engine@ + "' (expected 'vllm' or 'sglang')"@,
        ),
        0 <= at < engines.len() && engines[at].version_range@.len() == 0
            ==> manifest::engine_problems(engines).contains(
            "engine '"@ + engines[at].engine@ + "' has empty version_range"@,
        ),
    decreases engines.len(),
{
    if engines.len() > 0 {
        let init = engines.drop_last();
        let last = engines.last();
        lemma_entry_faults(init, at);
        let a = manifest::engine_problems(init);
        let b = manifest::entry_problems(last);
        let unknown = "unknown engine '"@ + engines[at].engine@
            + "' (expected 'vllm' or 'sglang')"@;
        let no_range = "engine '"@ + engines[at].engine@ + "' has empty version_range"@;
        if 0 <= at < init.len() {
            assert(init[at] == engines[at]);
            lemma_contains(a, b, unknown);
            lemma_contains(a, b, no_range);
        } else if at == init.len() {
            if last.engine@ != "vllm"@ && last.engine@ != "sglang"@ {
                assert(b[0] == unknown);
            }
            if last.version_range@.len() == 0 {
                assert(b[b.len() - 1] == no_range);
            }
            lemma_contains(a, b, unknown);
            lemma_contains(a, b, no_range);
        }
    }
}

proof fn lemma_contains(a: Seq<Seq<char>>, b: Seq<Seq<char>>, x: Seq<char>)
    ensures
        a.contains(x) || b.contains(x) ==> (a + b).contains(x),
{
    if a.contains(x) {
        let i = choose|i: int| 0 <= i < a.len() && a[i] == x;
        assert((a + b)[i] == x);
    }
    if b.contains(x) {
        let i = choose|i: int| 0 <= i < b.len() && b[i] == x;
        assert((a + b)[a.len() + i] == x);
    }
}

/// Validation reports every fault, with its message, and nothing else: there are as
/// many messages as faults.
pub proof fn law_every_fault_is_reported(m: ComponentManifest, at: int)
    ensures
        ({
            let p = manifest::problems(m);
            let named = text::starts_with(m.name@, "infe-"@);
            &&& p.len() == one_if(m.schema_version != 0) + one_if(m.name@.len() == 0) + one_if(
                !named,
            ) + one_if(m.version@.len() == 0) + one_if(m.capabilities@.len() == 0) + one_if(
                m.engines@.len() == 0,
            ) + all_entry_faults(m.engines@)
            &&& m.schema_version != 0 ==> p.contains(
                "schema_version is "@ + text::decimal(m.schema_version as nat) + ", expected "@
                    + seq!['0'],
            )
            &&& m.name@.len() == 0 ==> p.contains("name is empty"@)
            &&& !named ==> p.contains("name '"@ + m.name@ + "' does not start with 'infe-'"@)
            &&& m.version@.len() == 0 ==> p.contains("version is empty"@)
            &&& m.capabilities@.len() == 0 ==> p.contains("no capabilities declared"@)
            &&& m.engines@.len() == 0 ==> p.contains("no engine support declared"@)
            &&& 0 <= at < m.engines@.len() && m.engines@[at].engine@ != "vllm"@
                && m.engines@[at].engine@ != "sglang"@ ==> p.contains(
                "unknown engine '"@ + m.engines@[at].engine@
                    + "' (expected 'vllm' or 'sglang')"@,
            )
            &&& 0 <= at < m.engines@.len() && m.engines@[at].version_range@.len() == 0
                ==> p.contains(
                "engine '"@ + m.engines@[at].engine@ + "' has empty version_range"@,
            )
        }),
{
    lemma_entry_faults(m.engines@, at);
    let p = manifest::problems(m);
    let head = manifest::head_problems(m);
    let tail = manifest::engine_problems(m.engines@);
    reveal_with_fuel(text::decimal, 2);
    let named = text::starts_with(m.name@, "infe-"@);
    let n1 = one_if(m.schema_version != 0) as int;
    let n2 = n1 + one_if(m.name@.len() == 0);
    let n3 = n2 + one_if(!named);
    let n4 = n3 + one_if(m.version@.len() == 0);
    let n5 = n4 + one_if(m.capabilities@.len() == 0);
    assert(text::decimal(0) =~= seq!['0']);
    if m.schema_version != 0 {
        assert(p[0] == "schema_version is "@ + text::decimal(m.schema_version as nat)
            + ", expected "@ + text::decimal(0));
    }
    if m.name@.len() == 0 {
        assert(p[n1] == "name is empty"@);
    }
    if !named {
        assert(p[n2] == "name '"@ + m.name@ + "' does not start with 'infe-'"@);
    }
    if m.version@.len() == 0 {
        assert(p[n3] == "version is empty"@);
    }
    if m.capabilities@.len() == 0 {
        assert(p[n4] == "no capabilities declared"@);
    }
    if m.engines@.len() == 0 {
        assert(p[n5] == "no engine support declared"@);
    }
    if 0 <= at < m.engines@.len() {
        lemma_contains(
            head,
            tail,
            "unknown engine '"@ + m.engines@[at].engine@ + "' (expected 'vllm' or 'sglang')"@,
        );
        lemma_contains(
            head,
            tail,
            "engine '"@ + m.engines@[at].engine@ + "' has empty version_range"@,
        );
    }
}

/// A name has the project's prefix if it begins with these characters.
pub proof fn law_prefix(name: Seq<char>)
    ensures
        text::starts_with(name, "infe-"@) <==> name.len() >= 5 && name[0] == 'i' && name[1] == 'n'
            && name[2] == 'f' && name[3] == 'e' && name[4] == '-',
{
    reveal_strlit("infe-");
    if name.len() >= 5 {
        let sub = name.subrange(0, 5);
        assert(sub[0] == name[0] && sub[1] == name[1] && sub[2] == name[2] && sub[3] == name[3]
            && sub[4] == name[4]);
        if name[0] == 'i' && name[1] == 'n' && name[2] == 'f' && name[3] == 'e' && name[4] == '-' {
            assert(sub =~= "infe-"@);
        }
    }
}

} // verus!
