//! Flat JSON objects, rendered by `serde_json`.

use crate::text::{signed_decimal, text_less};
use vstd::prelude::*;

verus! {

/// The value of a member of a flat object.
#[derive(Clone, Debug)]
pub enum JsonScalar {
    Text(String),
    Integer(i64),
    Count(usize),
    Flag(bool),
}

/// The view of a [`JsonScalar`].
pub enum ScalarView {
    Text(Seq<char>),
    Number(int),
    Flag(bool),
}

impl View for JsonScalar {
    type V = ScalarView;

    open spec fn view(&self) -> ScalarView {
        match self {
            JsonScalar::Text(text) => ScalarView::Text(text@),
            JsonScalar::Integer(n) => ScalarView::Number(*n as int),
            JsonScalar::Count(n) => ScalarView::Number(*n as int),
            JsonScalar::Flag(flag) => ScalarView::Flag(*flag),
        }
    }
}

/// A hexadecimal digit, in lower case.
pub open spec fn hex_digit(d: nat) -> char {
    if d < 10 {
        (48 + d) as u8 as char
    } else {
        (87 + d) as u8 as char
    }
}

/// A character as it stands inside of a JSON string.
pub open spec fn escaped(c: char) -> Seq<char> {
    if c == '"' {
        seq!['\\', '"']
    } else if c == '\\' {
        seq!['\\', '\\']
    } else if c == '\u{8}' {
        seq!['\\', 'b']
    } else if c == '\t' {
        seq!['\\', 't']
    } else if c == '\n' {
        seq!['\\', 'n']
    } else if c == '\u{c}' {
        seq!['\\', 'f']
    } else if c == '\r' {
        seq!['\\', 'r']
    } else if (c as u32) < 0x20 {
        seq!['\\', 'u', '0', '0', hex_digit((c as nat) / 16), hex_digit((c as nat) % 16)]
    } else {
        seq![c]
    }
}

/// A text with every character as it stands inside of a JSON string.
pub open spec fn escaped_text(s: Seq<char>) -> Seq<char>
    decreases s.len(),
{
    if s.len() == 0 {
        seq![]
    } else {
        escaped(s[0]) + escaped_text(s.skip(1))
    }
}

/// A JSON string.
pub open spec fn quoted(s: Seq<char>) -> Seq<char> {
    seq!['"'] + escaped_text(s) + seq!['"']
}

/// A member's value in JSON.
pub open spec fn scalar_text(value: ScalarView) -> Seq<char> {
    match value {
        ScalarView::Text(text) => quoted(text),
        ScalarView::Number(n) => signed_decimal(n),
        ScalarView::Flag(true) => "true"@,
        ScalarView::Flag(false) => "false"@,
    }
}

/// Members in JSON, with commas between them.
pub open spec fn members_text(members: Seq<(Seq<char>, ScalarView)>) -> Seq<char>
    decreases members.len(),
{
    if members.len() == 0 {
        seq![]
    } else {
        let member = quoted(members[0].0) + seq![':'] + scalar_text(members[0].1);
        if members.len() == 1 {
            member
        } else {
            member + seq![','] + members_text(members.skip(1))
        }
    }
}

/// An object in JSON, without white space.
pub open spec fn object_text(members: Seq<(Seq<char>, ScalarView)>) -> Seq<char> {
    seq!['{'] + members_text(members) + seq!['}']
}

/// The view of a list of members.
pub open spec fn members_view(members: Seq<(&'static str, JsonScalar)>) -> Seq<
    (Seq<char>, ScalarView),
> {
    members.map_values(|member: (&'static str, JsonScalar)| (member.0@, member.1@))
}

/// `serde_json::Value::to_string` on an object: its members in the order of their
/// keys, without white space, numbers in decimal and strings escaped. The keys are
/// asked for in their order, which is also the order in which they are inserted.
#[verifier::external_body]
pub(crate) fn render_object(members: Vec<(&'static str, JsonScalar)>) -> (text: String)
    requires
        forall|i: int|
            0 < i < members@.len() ==> #[trigger] text_less(members@[i - 1].0@, members@[i].0@),
    ensures
        text@ == object_text(members_view(members@)),
{
    let mut object: serde_json::Map<String, serde_json::Value> = serde_json::Map::new();
    for (key, value) in members {
        let value = match value {
            JsonScalar::Text(text) => serde_json::Value::from(text),
            JsonScalar::Integer(n) => serde_json::Value::from(n),
            JsonScalar::Count(n) => serde_json::Value::from(n),
            JsonScalar::Flag(flag) => serde_json::Value::from(flag),
        };
        object.insert(key.to_owned(), value);
    }
    serde_json::Value::Object(object).to_string()
}

} // verus!
