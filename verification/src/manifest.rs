//! Component manifest schema (v0).
//!
//! Every component ships a manifest that declares its contract version,
//! capabilities, supported engines and versions, and conformance suite
//! reference. The manifest is the source of truth for what the component does
//! and where it works. This module holds the data model and the validation.

use crate::text;
use std::collections::BTreeMap;
use vstd::prelude::*;
use vstd::string::*;

verus! {

/// The manifest schema version. Increment when the manifest format itself
/// changes (not when a component's version bumps).
pub const MANIFEST_SCHEMA_VERSION: u32 = 0;

/// A component manifest.
#[derive(Debug, Clone, PartialEq)]
pub struct ComponentManifest {
    /// Schema version (currently 0).
    pub schema_version: u32,
    /// Component name (e.g. "infe-parsers", "infe-kv", "infe-sched").
    pub name: String,
    /// Component version (semver).
    pub version: String,
    /// Human-readable description.
    pub description: String,
    /// The trait/API version the component implements. Components with the
    /// same contract version are interchangeable.
    pub contract_version: u32,
    /// What the component does.
    pub capabilities: Vec<ManifestCapability>,
    /// Which engines and version ranges this component supports.
    pub engines: Vec<EngineSupport>,
    /// Reference to the conformance suite (path relative to repo root).
    pub conformance_ref: String,
    /// Features the component does NOT support (from the engine's stock
    /// feature set). The engine falls back to stock for these.
    pub unsupported_features: Vec<String>,
    /// Optional metadata (links, author, license, etc.).
    pub metadata: BTreeMap<String, String>,
}

/// A capability declared by a component.
#[derive(Debug, Clone, PartialEq, Eq, Hash)]
pub enum ManifestCapability {
    /// Produces scheduling decisions (admit, defer, preempt).
    Scheduling,
    /// Manages KV cache blocks (allocation, prefix matching, eviction).
    KvManagement,
    /// Parses tool-call and reasoning streams.
    StreamParsing,
    /// Builds attention metadata (block tables, `cu_seqlens`, slot mappings).
    AttentionMetadata,
    /// Custom capability with a free-form name.
    Custom(String),
}

impl ManifestCapability {
    /// The capability as text.
    pub open spec fn text(self) -> Seq<char> {
        match self {
            ManifestCapability::Scheduling => "scheduling"@,
            ManifestCapability::KvManagement => "kv-management"@,
            ManifestCapability::StreamParsing => "stream-parsing"@,
            ManifestCapability::AttentionMetadata => "attention-metadata"@,
            ManifestCapability::Custom(name) => "custom:"@ + name@,
        }
    }

    /// The capability as text.
    pub fn to_text(&self) -> (s: String)
        ensures
            s@ == self.text(),
    {
        match self {
            ManifestCapability::Scheduling => String::from_str("scheduling"),
            ManifestCapability::KvManagement => String::from_str("kv-management"),
            ManifestCapability::StreamParsing => String::from_str("stream-parsing"),
            ManifestCapability::AttentionMetadata => String::from_str("attention-metadata"),
            ManifestCapability::Custom(name) => String::from_str("custom:").concat(
                name.as_str(),
            ),
        }
    }
}

/// Engine support declaration.
#[derive(Debug, Clone, PartialEq)]
pub struct EngineSupport {
    /// Engine name: "vllm" or "sglang".
    pub engine: String,
    /// Semver range for supported versions (e.g. ">=0.10, <0.14").
    pub version_range: String,
    /// How the component is registered: the flag or hook name.
    pub registration: String,
    /// Whether the integration is verified or a documented gap.
    pub status: IntegrationStatus,
}

/// The status of an engine integration.
#[derive(Debug, Clone, Copy, PartialEq, Eq, Hash, Structural)]
pub enum IntegrationStatus {
    /// The shim is implemented and conformance passes.
    Verified,
    /// The shim exists but is untested against the pinned engine version.
    Experimental,
    /// No seam exists in this engine; the component does not work here.
    DocumentedGap,
}

impl IntegrationStatus {
    /// The status as text.
    pub open spec fn text(self) -> Seq<char> {
        match self {
            IntegrationStatus::Verified => "verified"@,
            IntegrationStatus::Experimental => "experimental"@,
            IntegrationStatus::DocumentedGap => "documented-gap"@,
        }
    }

    /// The status as text.
    pub fn to_text(&self) -> (s: String)
        ensures
            s@ == self.text(),
    {
        match self {
            IntegrationStatus::Verified => String::from_str("verified"),
            IntegrationStatus::Experimental => String::from_str("experimental"),
            IntegrationStatus::DocumentedGap => String::from_str("documented-gap"),
        }
    }
}

/// The number in one part of a version; 0 where it is not a 32-bit number.
pub open spec fn version_part(text: Seq<char>) -> nat {
    let part = text::trim(text);
    let digits = if part.len() > 0 && part[0] == '+' {
        part.skip(1)
    } else {
        part
    };
    if text::is_number(digits) && text::number(digits) <= u32::MAX {
        text::number(digits)
    } else {
        0
    }
}

/// The number in the part with the given position; 0 where there is none.
pub open spec fn part_or_zero(parts: Seq<Seq<char>>, at: int) -> nat {
    if at < parts.len() {
        version_part(parts[at])
    } else {
        0
    }
}

/// The first three numbers of a version.
pub open spec fn version_of(text: Seq<char>) -> (nat, nat, nat) {
    let parts = text::split(text, '.');
    (part_or_zero(parts, 0), part_or_zero(parts, 1), part_or_zero(parts, 2))
}

/// Whether a version is older than another.
pub open spec fn older(a: (nat, nat, nat), b: (nat, nat, nat)) -> bool {
    a.0 < b.0 || (a.0 == b.0 && (a.1 < b.1 || (a.1 == b.1 && a.2 < b.2)))
}

/// Whether a version meets a constraint `>=X.Y` or `<X.Y`. Any other text
/// constrains nothing.
pub open spec fn meets(version: (nat, nat, nat), constraint: Seq<char>) -> bool {
    let c = text::trim(constraint);
    if text::starts_with(c, ">="@) {
        !older(version, version_of(text::trim(c.skip(2))))
    } else if text::starts_with(c, "<"@) {
        older(version, version_of(text::trim(c.skip(1))))
    } else {
        true
    }
}

/// Whether a version meets every constraint of a range.
pub open spec fn in_range(version: Seq<char>, range: Seq<char>) -> bool {
    forall|i: int|
        0 <= i < text::split(range, ',').len() ==> meets(
            version_of(version),
            #[trigger] text::split(range, ',')[i],
        )
}

/// Whether an engine entry supports an engine at a version.
pub open spec fn entry_supports(e: EngineSupport, engine: Seq<char>, version: Seq<char>) -> bool {
    &&& e.engine@ == engine
    &&& e.status != IntegrationStatus::DocumentedGap
    &&& in_range(version, e.version_range@)
}

/// Whether some engine entry supports an engine at a version.
pub open spec fn supports(
    engines: Seq<EngineSupport>,
    engine: Seq<char>,
    version: Seq<char>,
) -> bool {
    exists|i: int|
        0 <= i < engines.len() && entry_supports(#[trigger] engines[i], engine, version)
}

/// What is wrong with an engine entry.
pub open spec fn entry_problems(e: EngineSupport) -> Seq<Seq<char>> {
    let unknown = if e.engine@ != "vllm"@ && e.engine@ != "sglang"@ {
        seq!["unknown engine '"@ + e.engine@ + "' (expected 'vllm' or 'sglang')"@]
    } else {
        Seq::empty()
    };
    let no_range = if e.version_range@.len() == 0 {
        seq!["engine '"@ + e.engine@ + "' has empty version_range"@]
    } else {
        Seq::empty()
    };
    unknown + no_range
}

/// What is wrong with the engine entries.
pub open spec fn engine_problems(engines: Seq<EngineSupport>) -> Seq<Seq<char>>
    decreases engines.len(),
{
    if engines.len() == 0 {
        Seq::empty()
    } else {
        engine_problems(engines.drop_last()) + entry_problems(engines.last())
    }
}

/// A message where something is wrong.
pub open spec fn problem_if(wrong: bool, message: Seq<char>) -> Seq<Seq<char>> {
    if wrong {
        seq![message]
    } else {
        Seq::empty()
    }
}

/// What is wrong with a manifest, apart from its engine entries.
pub open spec fn head_problems(m: ComponentManifest) -> Seq<Seq<char>> {
    problem_if(
        m.schema_version != MANIFEST_SCHEMA_VERSION,
        "schema_version is "@ + text::decimal(m.schema_version as nat) + ", expected "@
            + text::decimal(MANIFEST_SCHEMA_VERSION as nat),
    ) + problem_if(m.name@.len() == 0, "name is empty"@) + problem_if(
        !text::starts_with(m.name@, "infe-"@),
        "name '"@ + m.name@ + "' does not start with 'infe-'"@,
    ) + problem_if(m.version@.len() == 0, "version is empty"@) + problem_if(
        m.capabilities@.len() == 0,
        "no capabilities declared"@,
    ) + problem_if(m.engines@.len() == 0, "no engine support declared"@)
}

/// What is wrong with a manifest.
pub open spec fn problems(m: ComponentManifest) -> Seq<Seq<char>> {
    head_problems(m) + engine_problems(m.engines@)
}

/// The texts of a list of messages.
pub open spec fn messages(errors: Seq<String>) -> Seq<Seq<char>> {
    errors.map_values(|e: String| e@)
}

/// The number in one part of a version.
fn parse_part(text: &[char]) -> (n: u32)
    ensures
        n == version_part(text@),
{
    let part = text::trim_chars(text);
    let digits = if part.len() > 0 && part[0] == '+' {
        vstd::slice::slice_subrange(part, 1, part.len())
    } else {
        part
    };
    assert(digits@ =~= if part@.len() > 0 && part@[0] == '+' {
        part@.skip(1)
    } else {
        part@
    });
    match text::number_of(digits) {
        Some(n) => n,
        None => 0,
    }
}

/// The first three numbers of a version.
fn parse_version(text: &[char]) -> (v: (u32, u32, u32))
    ensures
        (v.0 as nat, v.1 as nat, v.2 as nat) == version_of(text@),
{
    let parts = text::split_chars(text, '.');
    let ghost views = parts@.map_values(|piece: &[char]| piece@);
    assert(views == text::split(text@, '.'));
    let major = parse_part(parts[0]);
    let minor: u32 = if parts.len() > 1 {
        parse_part(parts[1])
    } else {
        0
    };
    let patch: u32 = if parts.len() > 2 {
        parse_part(parts[2])
    } else {
        0
    };
    (major, minor, patch)
}

/// Whether a version is older than another.
fn is_older(a: (u32, u32, u32), b: (u32, u32, u32)) -> (r: bool)
    ensures
        r == older((a.0 as nat, a.1 as nat, a.2 as nat), (b.0 as nat, b.1 as nat, b.2 as nat)),
{
    a.0 < b.0 || (a.0 == b.0 && (a.1 < b.1 || (a.1 == b.1 && a.2 < b.2)))
}

/// Whether a version meets a constraint.
fn meets_constraint(v: (u32, u32, u32), constraint: &[char]) -> (r: bool)
    ensures
        r == meets((v.0 as nat, v.1 as nat, v.2 as nat), constraint@),
{
    proof {
        reveal_strlit(">=");
        reveal_strlit("<");
    }
    let c = text::trim_chars(constraint);
    let n = c.len();
    let at_least = text::to_chars(">=");
    let below = text::to_chars("<");
    if text::begins_with(c, at_least.as_slice()) {
        let rest = vstd::slice::slice_subrange(c, 2, n);
        assert(rest@ =~= c@.skip(2));
        let min = parse_version(text::trim_chars(rest));
        !is_older(v, min)
    } else if text::begins_with(c, below.as_slice()) {
        let rest = vstd::slice::slice_subrange(c, 1, n);
        assert(rest@ =~= c@.skip(1));
        let max = parse_version(text::trim_chars(rest));
        is_older(v, max)
    } else {
        true
    }
}

/// Whether a version is in a range: `>=X.Y` and `<X.Y` constraints separated
/// by commas.
pub fn version_in_range(version: &str, range: &str) -> (r: bool)
    ensures
        r == in_range(version@, range@),
{
    let v = parse_version(text::to_chars(version).as_slice());
    let range_chars = text::to_chars(range);
    let constraints = text::split_chars(range_chars.as_slice(), ',');
    let ghost views = constraints@.map_values(|piece: &[char]| piece@);
    assert(views == text::split(range@, ','));
    let n = constraints.len();
    let mut i: usize = 0;
    while i < n
        invariant
            n == constraints@.len(),
            i <= n,
            views == constraints@.map_values(|piece: &[char]| piece@),
            views == text::split(range@, ','),
            (v.0 as nat, v.1 as nat, v.2 as nat) == version_of(version@),
            forall|j: int| 0 <= j < i ==> meets(version_of(version@), #[trigger] views[j]),
        decreases n - i,
    {
        assert(views[i as int] == constraints@[i as int]@);
        if !meets_constraint(v, constraints[i]) {
            assert(!meets(version_of(version@), text::split(range@, ',')[i as int]));
            return false;
        }
        i = i + 1;
    }
    true
}

impl ComponentManifest {
    /// Create a new manifest with the current schema version.
    pub fn new(name: &str, version: &str) -> (m: Self)
        ensures
            m.schema_version == MANIFEST_SCHEMA_VERSION,
            m.name@ == name@,
            m.version@ == version@,
            m.description@.len() == 0,
            m.contract_version == 0,
            m.capabilities@.len() == 0,
            m.engines@.len() == 0,
            m.conformance_ref@.len() == 0,
            m.unsupported_features@.len() == 0,
            m.metadata@ == Map::<String, String>::empty(),
    {
        ComponentManifest {
            schema_version: MANIFEST_SCHEMA_VERSION,
            name: String::from_str(name),
            version: String::from_str(version),
            description: String::new(),
            contract_version: 0,
            capabilities: Vec::new(),
            engines: Vec::new(),
            conformance_ref: String::new(),
            unsupported_features: Vec::new(),
            metadata: BTreeMap::new(),
        }
    }

    /// Check if this manifest supports a given engine at a given version:
    /// whether an entry that is not a documented gap names the engine with a
    /// range that holds the version.
    pub fn supports_engine(&self, engine: &str, version: &str) -> (supported: bool)
        ensures
            supported == supports(self.engines@, engine@, version@),
    {
        let n = self.engines.len();
        let mut i: usize = 0;
        while i < n
            invariant
                n == self.engines@.len(),
                i <= n,
                forall|j: int|
                    0 <= j < i ==> !entry_supports(#[trigger] self.engines@[j], engine@, version@),
            decreases n - i,
        {
            let e = &self.engines[i];
            if text::same_text(e.engine.as_str(), engine) && e.status
                != IntegrationStatus::DocumentedGap && version_in_range(
                version,
                e.version_range.as_str(),
            ) {
                assert(entry_supports(self.engines@[i as int], engine@, version@));
                return true;
            }
            i = i + 1;
        }
        false
    }

    /// Validate the manifest for internal consistency.
    ///
    /// Returns a list of validation errors (empty if valid).
    pub fn validate(&self) -> (errors: Vec<String>)
        ensures
            messages(errors@) == problems(*self),
    {
        let mut errors: Vec<String> = Vec::new();
        if self.schema_version != MANIFEST_SCHEMA_VERSION {
            errors.push(
                String::from_str("schema_version is ").concat(
                    text::decimal_text(self.schema_version as u64).as_str(),
                ).concat(", expected ").concat(
                    text::decimal_text(MANIFEST_SCHEMA_VERSION as u64).as_str(),
                ),
            );
        }
        if self.name.as_str().unicode_len() == 0 {
            errors.push(String::from_str("name is empty"));
        }
        let name = text::to_chars(self.name.as_str());
        if !text::begins_with(name.as_slice(), text::to_chars("infe-").as_slice()) {
            errors.push(
                String::from_str("name '").concat(self.name.as_str()).concat(
                    "' does not start with 'infe-'",
                ),
            );
        }
        if self.version.as_str().unicode_len() == 0 {
            errors.push(String::from_str("version is empty"));
        }
        if self.capabilities.len() == 0 {
            errors.push(String::from_str("no capabilities declared"));
        }
        if self.engines.len() == 0 {
            errors.push(String::from_str("no engine support declared"));
        }
        assert(messages(errors@) =~= head_problems(*self));
        let n = self.engines.len();
        let mut i: usize = 0;
        assert(self.engines@.take(0) =~= Seq::empty());
        assert(messages(errors@) =~= head_problems(*self) + engine_problems(self.engines@.take(0)));
        while i < n
            invariant
                n == self.engines@.len(),
                i <= n,
                messages(errors@) == head_problems(*self) + engine_problems(
                    self.engines@.take(i as int),
                ),
            decreases n - i,
        {
            let e = &self.engines[i];
            let ghost before = messages(errors@);
            if !text::same_text(e.engine.as_str(), "vllm") && !text::same_text(
                e.engine.as_str(),
                "sglang",
            ) {
                errors.push(
                    String::from_str("unknown engine '").concat(e.engine.as_str()).concat(
                        "' (expected 'vllm' or 'sglang')",
                    ),
                );
            }
            if e.version_range.as_str().unicode_len() == 0 {
                errors.push(
                    String::from_str("engine '").concat(e.engine.as_str()).concat(
                        "' has empty version_range",
                    ),
                );
            }
            assert(messages(errors@) =~= before + entry_problems(*e));
            assert(self.engines@.take(i + 1).drop_last() =~= self.engines@.take(i as int));
            assert(before + entry_problems(*e) =~= head_problems(*self) + engine_problems(
                self.engines@.take(i + 1),
            ));
            i = i + 1;
        }
        assert(self.engines@.take(n as int) =~= self.engines@);
        errors
    }
}

/// The pieces of two texts with a separator between them are the pieces of the
/// one and of the other.
proof fn lemma_split_joined(a: Seq<char>, b: Seq<char>, separator: char)
    ensures
        text::split(a + seq![separator] + b, separator) == text::split(a, separator)
            + text::split(b, separator),
    decreases a.len(),
{
    let mark = seq![separator];
    let whole = a + mark + b;
    text::lemma_find_from(a, mark, 0);
    match text::find(a, mark) {
        Some(at) => {
            text::lemma_find_extend(a, mark + b, mark);
            assert(a + (mark + b) =~= whole);
            lemma_split_joined(a.skip(at + 1), b, separator);
            assert(whole.skip(at + 1) =~= a.skip(at + 1) + mark + b);
            assert(whole.take(at) =~= a.take(at));
            assert(seq![a.take(at)] + (text::split(a.skip(at + 1), separator) + text::split(
                b,
                separator,
            )) =~= text::split(a, separator) + text::split(b, separator));
        },
        None => {
            let at = a.len() as int;
            assert(whole.subrange(at, at + 1) =~= mark);
            assert forall|i: int| 0 <= i < at implies !#[trigger] text::occurs_at(
                whole,
                mark,
                i,
            ) by {
                assert(whole.subrange(i, i + 1) =~= a.subrange(i, i + 1));
                assert(!text::occurs_at(a, mark, i));
            }
            text::lemma_find_is(whole, mark, 0, at);
            assert(whole.take(at) =~= a);
            assert(whole.skip(at + 1) =~= b);
        },
    }
}

/// A comma means "and": a version is in two ranges joined by a comma if and
/// only if it is in both.
pub proof fn law_comma_is_and(version: Seq<char>, a: Seq<char>, b: Seq<char>)
    ensures
        in_range(version, a + seq![','] + b) <==> in_range(version, a) && in_range(version, b),
{
    lemma_split_joined(a, b, ',');
    let left = text::split(a, ',');
    let right = text::split(b, ',');
    let both = text::split(a + seq![','] + b, ',');
    if in_range(version, a + seq![','] + b) {
        assert forall|i: int| 0 <= i < left.len() implies meets(
            version_of(version),
            #[trigger] left[i],
        ) by {
            assert(both[i] == left[i]);
        }
        assert forall|i: int| 0 <= i < right.len() implies meets(
            version_of(version),
            #[trigger] right[i],
        ) by {
            assert(both[left.len() + i] == right[i]);
        }
    }
}

/// A range holds everything between two versions that it holds.
pub proof fn law_range_has_no_gaps(
    low: Seq<char>,
    version: Seq<char>,
    high: Seq<char>,
    range: Seq<char>,
)
    requires
        in_range(low, range),
        in_range(high, range),
        !older(version_of(version), version_of(low)),
        !older(version_of(high), version_of(version)),
    ensures
        in_range(version, range),
{
    let constraints = text::split(range, ',');
    assert forall|i: int| 0 <= i < constraints.len() implies meets(
        version_of(version),
        #[trigger] constraints[i],
    ) by {
        assert(meets(version_of(low), constraints[i]));
        assert(meets(version_of(high), constraints[i]));
    }
}

/// The empty range holds every version.
pub proof fn law_empty_range_holds_all(version: Seq<char>)
    ensures
        in_range(version, Seq::empty()),
{
    reveal_strlit(">=");
    reveal_strlit("<");
    let none = Seq::<char>::empty();
    text::lemma_find_from(none, seq![','], 0);
    assert(text::split(none, ',') =~= seq![none]);
    assert(text::trim_start(none) =~= none);
}

/// An engine that is only ever a documented gap is supported at no version.
pub proof fn law_gap_is_not_supported(
    engines: Seq<EngineSupport>,
    engine: Seq<char>,
    version: Seq<char>,
)
    requires
        forall|i: int|
            0 <= i < engines.len() && (#[trigger] engines[i]).engine@ == engine
                ==> engines[i].status == IntegrationStatus::DocumentedGap,
    ensures
        !supports(engines, engine, version),
{
}

/// Whether an engine entry names a known engine and a range.
pub open spec fn entry_valid(e: EngineSupport) -> bool {
    (e.engine@ == "vllm"@ || e.engine@ == "sglang"@) && e.version_range@.len() > 0
}

proof fn lemma_engine_problems(engines: Seq<EngineSupport>)
    ensures
        engine_problems(engines).len() == 0 <==> forall|i: int|
            0 <= i < engines.len() ==> entry_valid(#[trigger] engines[i]),
    decreases engines.len(),
{
    if engines.len() > 0 {
        let init = engines.drop_last();
        lemma_engine_problems(init);
        assert(forall|i: int| 0 <= i < init.len() ==> init[i] == engines[i]);
        assert(engines.last() == engines[engines.len() - 1]);
        if forall|i: int| 0 <= i < engines.len() ==> entry_valid(#[trigger] engines[i]) {
            assert forall|i: int| 0 <= i < init.len() implies entry_valid(#[trigger] init[i]) by {
                assert(entry_valid(engines[i]));
            }
        }
        if engine_problems(engines).len() == 0 {
            assert forall|i: int| 0 <= i < engines.len() implies entry_valid(
                #[trigger] engines[i],
            ) by {
                if i < init.len() {
                    assert(entry_valid(init[i]));
                }
            }
        }
    }
}

/// A manifest is valid if and only if it has the current schema version, a name
/// with the project's prefix, a version, a capability, an engine, and only
/// engine entries that name a known engine and a range.
pub proof fn law_valid_manifests(m: ComponentManifest)
    ensures
        problems(m).len() == 0 <==> {
            &&& m.schema_version == MANIFEST_SCHEMA_VERSION
            &&& text::starts_with(m.name@, "infe-"@)
            &&& m.version@.len() > 0
            &&& m.capabilities@.len() > 0
            &&& m.engines@.len() > 0
            &&& forall|i: int| 0 <= i < m.engines@.len() ==> entry_valid(#[trigger] m.engines@[i])
        },
{
    reveal_strlit("infe-");
    lemma_engine_problems(m.engines@);
}

} // verus!
