//! Reading the top-level members of a JSON text.

use vstd::prelude::*;
use vstd::string::*;

verus! {

/// A member of a JSON object, read as text.
#[derive(Debug, Clone)]
pub struct JsonMember {
    /// The member's key.
    pub key: String,
    /// Whether the value is a string.
    pub is_string: bool,
    /// The content of a string value; any other value, serialised compactly.
    pub text: String,
}

impl View for JsonMember {
    type V = (Seq<char>, bool, Seq<char>);

    open spec fn view(&self) -> (Seq<char>, bool, Seq<char>) {
        (self.key@, self.is_string, self.text@)
    }
}

/// The views of a list of members.
pub open spec fn members_view(members: Option<Vec<JsonMember>>) -> Option<
    Seq<(Seq<char>, bool, Seq<char>)>,
> {
    match members {
        Some(m) => Some(Seq::new(m@.len(), |i: int| m@[i]@)),
        None => None,
    }
}

/// What `serde_json::from_str` makes of a text: `None` where it is not one
/// complete JSON value; otherwise the members of the object (key, whether the
/// value is a string, the value as text), and no members where the value is
/// not an object.
pub uninterp spec fn json_members(text: Seq<char>) -> Option<Seq<(Seq<char>, bool, Seq<char>)>>;

/// `serde_json::from_str` to a `serde_json::Value`, whose members are handed
/// out as text: a string as its content, any other value through the compact
/// `Display` of `Value`. What comes out depends on the text alone, and no key
/// stands in it twice. Which texts parse, and how values are written, is not
/// stated.
#[verifier::external_body]
pub(crate) fn parse_members(text: &str) -> (members: Option<Vec<JsonMember>>)
    ensures
        members_view(members) == json_members(text@),
        members matches Some(m) ==> forall|i: int, j: int|
            0 <= i < j < m@.len() ==> (#[trigger] m@[i]).key@ != (#[trigger] m@[j]).key@,
{
    let value = serde_json::from_str::<serde_json::Value>(text).ok()?;
    let mut members = Vec::new();
    if let serde_json::Value::Object(map) = value {
        for (key, value) in map {
            members.push(match value {
                serde_json::Value::String(text) => JsonMember { key, is_string: true, text },
                other => JsonMember { key, is_string: false, text: other.to_string() },
            });
        }
    }
    Some(members)
}

/// Whether a text is one complete JSON value.
pub open spec fn is_json(text: Seq<char>) -> bool {
    json_members(text) is Some
}

/// Whether a text is one complete JSON value.
pub fn is_complete_json(json_str: &str) -> (complete: bool)
    ensures
        complete == is_json(json_str@),
{
    parse_members(json_str).is_some()
}

/// The first member with the given key, from position `from` on.
pub open spec fn member_from(
    members: Seq<(Seq<char>, bool, Seq<char>)>,
    key: Seq<char>,
    from: int,
) -> Option<(bool, Seq<char>)>
    decreases members.len() - from,
{
    if from < 0 || from >= members.len() {
        None
    } else if members[from].0 == key {
        Some((members[from].1, members[from].2))
    } else {
        member_from(members, key, from + 1)
    }
}

/// The value of the member with the given key: whether it is a string, and
/// its text.
pub open spec fn member(members: Seq<(Seq<char>, bool, Seq<char>)>, key: Seq<char>) -> Option<
    (bool, Seq<char>),
> {
    member_from(members, key, 0)
}

proof fn lemma_member_from(
    members: Seq<(Seq<char>, bool, Seq<char>)>,
    key: Seq<char>,
    from: int,
    at: int,
)
    requires
        0 <= from <= at < members.len(),
        members[at].0 == key,
        forall|j: int| from <= j < at ==> (#[trigger] members[j]).0 != key,
    ensures
        member_from(members, key, from) == Some((members[at].1, members[at].2)),
    decreases at - from,
{
    if from < at {
        assert(members[from].0 != key);
        lemma_member_from(members, key, from + 1, at);
    }
}

proof fn lemma_no_member(
    members: Seq<(Seq<char>, bool, Seq<char>)>,
    key: Seq<char>,
    from: int,
)
    requires
        0 <= from,
        forall|j: int| from <= j < members.len() ==> (#[trigger] members[j]).0 != key,
    ensures
        member_from(members, key, from) is None,
    decreases members.len() - from,
{
    if from < members.len() {
        assert(members[from].0 != key);
        lemma_no_member(members, key, from + 1);
    }
}

/// Whether no key stands in a list of members twice.
pub open spec fn distinct_keys(members: Seq<(Seq<char>, bool, Seq<char>)>) -> bool {
    forall|i: int, j: int|
        0 <= i < j < members.len() ==> (#[trigger] members[i]).0 != (#[trigger] members[j]).0
}

/// Looking up a key gives the value of the member at whatever place that has the
/// key, all of it: whether it is a string, and its text.
pub proof fn law_member_is_found(members: Seq<(Seq<char>, bool, Seq<char>)>, at: int)
    requires
        distinct_keys(members),
        0 <= at < members.len(),
    ensures
        member(members, members[at].0) == Some((members[at].1, members[at].2)),
{
    lemma_member_from(members, members[at].0, 0, at);
}

/// Looking up a key that no member has gives nothing.
pub proof fn law_other_keys_are_missing(
    members: Seq<(Seq<char>, bool, Seq<char>)>,
    key: Seq<char>,
)
    requires
        forall|i: int| 0 <= i < members.len() ==> (#[trigger] members[i]).0 != key,
    ensures
        member(members, key) is None,
{
    lemma_no_member(members, key, 0);
}

/// The member with the given key.
pub fn get_member<'a>(members: &'a Vec<JsonMember>, key: &str) -> (found: Option<&'a JsonMember>)
    ensures
        match found {
            Some(m) => member(members_view(Some(*members))->0, key@) == Some(
                (m.is_string, m.text@),
            ),
            None => member(members_view(Some(*members))->0, key@) is None,
        },
{
    let ghost views = members_view(Some(*members))->0;
    let wanted = String::from_str(key);
    let n = members.len();
    let mut i: usize = 0;
    while i < n
        invariant
            n == members@.len(),
            i <= n,
            wanted@ == key@,
            views == members_view(Some(*members))->0,
            member(views, key@) == member_from(views, key@, i as int),
        decreases n - i,
    {
        if members[i].key == wanted {
            return Some(&members[i]);
        }
        i = i + 1;
    }
    None
}

} // verus!
