//! Tokens read out of a layout document's markup events.

use vstd::prelude::*;

use crate::number::{coordinate_value, parse_coordinate};
use crate::token::Token;
use vstd::string::StrSliceExecFns;

verus! {

/// One event of a layout document, with attribute values as written.
#[derive(Debug)]
pub enum MarkupEvent {
    /// An opening or self-closing tag.
    Start { name: String, attributes: Vec<(String, String)> },
    /// A closing tag.
    End { name: String },
    /// Anything else (text, comments, declarations).
    Other,
}

/// A token's content and geometry, as read from a `String` tag.
pub type TokenFields = (Seq<char>, i64, i64, i64, i64);

/// Value of the last attribute named `key`.
pub open spec fn attr_value(attrs: Seq<(String, String)>, key: Seq<char>) -> Option<Seq<char>>
    decreases attrs.len(),
{
    if attrs.len() == 0 {
        None
    } else if attrs.last().0@ == key {
        Some(attrs.last().1@)
    } else {
        attr_value(attrs.drop_last(), key)
    }
}

/// Coordinate in attribute `key`; zero when absent or unparseable.
pub open spec fn attr_coordinate(attrs: Seq<(String, String)>, key: Seq<char>) -> i64 {
    match attr_value(attrs, key) {
        Some(v) => coordinate_value(v) as i64,
        None => 0,
    }
}

/// Fields of the token that a `String` tag with `attrs` describes.
pub open spec fn token_fields(attrs: Seq<(String, String)>) -> TokenFields {
    (
        match attr_value(attrs, "CONTENT"@) {
            Some(v) => v,
            None => Seq::empty(),
        },
        attr_coordinate(attrs, "HPOS"@),
        attr_coordinate(attrs, "VPOS"@),
        attr_coordinate(attrs, "WIDTH"@),
        attr_coordinate(attrs, "HEIGHT"@),
    )
}

/// Whether the events leave the reader inside a `Page` element.
pub open spec fn in_page_after(events: Seq<MarkupEvent>) -> bool
    decreases events.len(),
{
    if events.len() == 0 {
        false
    } else {
        let before = in_page_after(events.drop_last());
        match events.last() {
            MarkupEvent::Start { name, .. } => if name@ == "Page"@ {
                true
            } else {
                before
            },
            MarkupEvent::End { name } => if name@ == "Page"@ {
                false
            } else {
                before
            },
            MarkupEvent::Other => before,
        }
    }
}

/// Tokens read from the events: one per `String` tag inside a `Page`
/// whose content is not empty, in document order.
pub open spec fn collected(events: Seq<MarkupEvent>) -> Seq<TokenFields>
    decreases events.len(),
{
    if events.len() == 0 {
        Seq::empty()
    } else {
        let before = collected(events.drop_last());
        match events.last() {
            MarkupEvent::Start { name, attributes } => if name@ == "String"@ && in_page_after(
                events.drop_last(),
            ) && token_fields(attributes@).0.len() > 0 {
                before.push(token_fields(attributes@))
            } else {
                before
            },
            _ => before,
        }
    }
}

pub open spec fn fields_of(t: Token) -> TokenFields {
    (t.content@, t.h_pos, t.v_pos, t.width, t.height)
}

/// Whether `a` and `b` hold the same characters.
fn str_eq(a: &str, b: &str) -> (r: bool)
    ensures
        r == (a@ == b@),
{
    let n = a.unicode_len();
    if n != b.unicode_len() {
        return false;
    }
    let mut i: usize = 0;
    while i < n
        invariant
            n == a@.len(),
            n == b@.len(),
            i <= n,
            forall|k: int| 0 <= k < i ==> a@[k] == b@[k],
        decreases n - i,
    {
        if a.get_char(i) != b.get_char(i) {
            return false;
        }
        i = i + 1;
    }
    assert(a@ =~= b@);
    true
}

/// The token that a `String` tag with `attrs` describes.
fn token_from_attributes(attrs: &Vec<(String, String)>) -> (r: Token)
    ensures
        fields_of(r) == token_fields(attrs@),
{
    let mut content = String::new();
    let mut h_pos: i64 = 0;
    let mut v_pos: i64 = 0;
    let mut width: i64 = 0;
    let mut height: i64 = 0;
    let mut i: usize = 0;
    assert(attrs@.take(0) =~= Seq::<(String, String)>::empty());
    while i < attrs.len()
        invariant
            i <= attrs@.len(),
            fields_of(Token { content, h_pos, v_pos, width, height }) == token_fields(
                attrs@.take(i as int),
            ),
        decreases attrs@.len() - i,
    {
        let key = attrs[i].0.as_str();
        let value = attrs[i].1.as_str();
        assert(attrs@.take(i + 1).drop_last() =~= attrs@.take(i as int));
        assert(attrs@.take(i + 1).last() == attrs@[i as int]);
        proof {
            reveal_strlit("CONTENT");
            reveal_strlit("HPOS");
            reveal_strlit("VPOS");
            reveal_strlit("WIDTH");
            reveal_strlit("HEIGHT");
        }
        assert("CONTENT"@.len() == 7 && "HPOS"@.len() == 4 && "VPOS"@.len() == 4
            && "WIDTH"@.len() == 5 && "HEIGHT"@.len() == 6);
        assert("HPOS"@[0] == 'H' && "VPOS"@[0] == 'V');
        if str_eq(key, "CONTENT") {
            content = value.to_owned();
        } else if str_eq(key, "HPOS") {
            h_pos = parse_coordinate(value);
        } else if str_eq(key, "VPOS") {
            v_pos = parse_coordinate(value);
        } else if str_eq(key, "WIDTH") {
            width = parse_coordinate(value);
        } else if str_eq(key, "HEIGHT") {
            height = parse_coordinate(value);
        }
        i = i + 1;
    }
    assert(attrs@.take(attrs@.len() as int) =~= attrs@);
    Token { content, h_pos, v_pos, width, height }
}

/// Reads the tokens out of a layout document's events: each `String` tag
/// inside a `Page` with non-empty `CONTENT` gives one token, its geometry
/// from `HPOS`, `VPOS`, `WIDTH` and `HEIGHT` (zero when absent or
/// unparseable).
pub fn collect_tokens(events: &Vec<MarkupEvent>) -> (r: Vec<Token>)
    ensures
        r@.len() == collected(events@).len(),
        forall|i: int| 0 <= i < r@.len() ==> fields_of(#[trigger] r@[i]) == collected(events@)[i],
        forall|i: int| 0 <= i < r@.len() ==> (#[trigger] r@[i]).wf(),
{
    let mut tokens: Vec<Token> = Vec::new();
    let mut in_page = false;
    let mut i: usize = 0;
    assert(events@.take(0) =~= Seq::<MarkupEvent>::empty());
    while i < events.len()
        invariant
            i <= events@.len(),
            in_page == in_page_after(events@.take(i as int)),
            tokens@.len() == collected(events@.take(i as int)).len(),
            forall|k: int|
                0 <= k < tokens@.len() ==> fields_of(#[trigger] tokens@[k]) == collected(
                    events@.take(i as int),
                )[k],
            forall|k: int| 0 <= k < tokens@.len() ==> (#[trigger] tokens@[k]).wf(),
        decreases events@.len() - i,
    {
        assert(events@.take(i + 1).drop_last() =~= events@.take(i as int));
        assert(events@.take(i + 1).last() == events@[i as int]);
        proof {
            reveal_strlit("Page");
            reveal_strlit("String");
        }
        assert("Page"@.len() == 4 && "String"@.len() == 6);
        match &events[i] {
            MarkupEvent::Start { name, attributes } => {
                if str_eq(name.as_str(), "Page") {
                    in_page = true;
                } else if str_eq(name.as_str(), "String") && in_page {
                    let token = token_from_attributes(attributes);
                    if token.content.as_str().unicode_len() > 0 {
                        tokens.push(token);
                    }
                }
            },
            MarkupEvent::End { name } => {
                if str_eq(name.as_str(), "Page") {
                    in_page = false;
                }
            },
            MarkupEvent::Other => {},
        }
        i = i + 1;
    }
    assert(events@.take(events@.len() as int) =~= events@);
    tokens
}

} // verus!
