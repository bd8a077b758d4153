//! A small attribute type: one attribute without a payload, and a family of
//! attributes that carry one.

use crate::attribute::{Attribute, AttributeError};
use vstd::prelude::*;
use vstd::std_specs::iter::IteratorSpec;

verus! {

/// An attribute that is either bare or carries a payload.
///
/// The bare attribute is written `without-payload`. One with a payload is
/// written `with-` followed by the payload; when read, whatever follows the
/// first dash of a string is taken as the payload.
#[derive(Debug, PartialEq, Eq, Hash, PartialOrd)]
pub enum ExampleAttribute {
    WithoutPayload,
    WithPayload(String),
}

/// The first dash of `text` is at position `k`.
pub open spec fn first_dash_at(text: Seq<char>, k: int) -> bool {
    &&& 0 <= k < text.len()
    &&& text[k] == '-'
    &&& forall|j: int| 0 <= j < k ==> text[j] != '-'
}

/// What follows the first dash of `text`, or `None` where it has no dash.
pub open spec fn after_first_dash(text: Seq<char>) -> Option<Seq<char>> {
    if exists|k: int| first_dash_at(text, k) {
        let k = choose|k: int| first_dash_at(text, k);
        Some(text.subrange(k + 1, text.len() as int))
    } else {
        None
    }
}

/// A string has at most one first dash.
pub proof fn lemma_first_dash_unique(text: Seq<char>, k: int, m: int)
    requires
        first_dash_at(text, k),
        first_dash_at(text, m),
    ensures
        k == m,
{
    if k < m {
        assert(text[k] != '-');
    } else if m < k {
        assert(text[m] != '-');
    }
}

/// The position of the first dash of `text`, counted in characters, together
/// with the number of characters in `text`.
fn find_first_dash(text: &str) -> (found: (Option<usize>, usize))
    ensures
        found.1 == text@.len(),
        found.0 matches Some(k) ==> first_dash_at(text@, k as int),
        found.0 is None ==> forall|j: int| 0 <= j < text@.len() ==> text@[j] != '-',
{
    broadcast use vstd::string::group_string_axioms;

    let length = text.unicode_len();
    let mut chars = text.chars();
    let mut position: usize = 0;
    let mut dash: Option<usize> = None;
    loop
        invariant
            chars.obeys_prophetic_iter_laws(),
            position <= text@.len(),
            length == text@.len(),
            chars.remaining() == text@.subrange(position as int, text@.len() as int),
            dash matches Some(k) ==> first_dash_at(text@, k as int),
            dash is None ==> forall|j: int| 0 <= j < position ==> text@[j] != '-',
        ensures
            position == text@.len(),
        decreases text@.len() - position,
    {
        let ghost before = chars.remaining();
        match chars.next() {
            Some(c) => {
                assert(c == text@[position as int]) by {
                    assert(before[0] == text@[position as int]);
                }
                assert(chars.remaining() == text@.subrange(position as int + 1, text@.len() as int))
                    by {
                    assert(before.drop_first() =~= text@.subrange(
                        position as int + 1,
                        text@.len() as int,
                    ));
                }
                if c == '-' && dash.is_none() {
                    dash = Some(position);
                }
                position += 1;
            },
            None => {
                assert(before.len() == 0);
                break ;
            },
        }
    }
    (dash, position)
}

impl ExampleAttribute {
    /// Reads an attribute from its string form: `without-payload` is the bare
    /// attribute; any other string must hold a dash, and what follows its
    /// first dash is the payload.
    pub fn try_from(text: String) -> (result: Result<ExampleAttribute, AttributeError>)
        ensures
            text@ == "without-payload"@ ==> result matches Ok(ExampleAttribute::WithoutPayload),
            text@ != "without-payload"@ ==> (match after_first_dash(text@) {
                Some(rest) => result matches Ok(ExampleAttribute::WithPayload(payload))
                    && payload@ == rest,
                None => result matches Err(AttributeError::ParseError),
            }),
    {
        let bare = String::from_str("without-payload");
        if text == bare {
            return Ok(ExampleAttribute::WithoutPayload);
        }
        let (dash, length) = find_first_dash(text.as_str());
        match dash {
            None => {
                assert(after_first_dash(text@) is None) by {
                    if exists|k: int| first_dash_at(text@, k) {
                        let k = choose|k: int| first_dash_at(text@, k);
                        assert(text@[k] == '-');
                    }
                }
                Err(AttributeError::ParseError)
            },
            Some(k) => {
                proof {
                    let chosen = choose|m: int| first_dash_at(text@, m);
                    lemma_first_dash_unique(text@, k as int, chosen);
                }
                let payload = text.as_str().substring_char(k + 1, length);
                Ok(ExampleAttribute::WithPayload(String::from_str(payload)))
            },
        }
    }
}

impl Clone for ExampleAttribute {
    fn clone(&self) -> (copy: Self)
        ensures
            copy == *self,
    {
        match self {
            ExampleAttribute::WithoutPayload => ExampleAttribute::WithoutPayload,
            ExampleAttribute::WithPayload(payload) => ExampleAttribute::WithPayload(
                payload.clone(),
            ),
        }
    }
}

impl Default for ExampleAttribute {
    fn default() -> (attribute: Self)
        ensures
            attribute == ExampleAttribute::WithoutPayload,
    {
        ExampleAttribute::WithoutPayload
    }
}

impl Attribute for ExampleAttribute {
    open spec fn text(&self) -> Seq<char> {
        match self {
            ExampleAttribute::WithoutPayload => "without-payload"@,
            ExampleAttribute::WithPayload(payload) => "with-"@ + payload@,
        }
    }

    open spec fn parsed(text: Seq<char>) -> Option<Seq<char>> {
        if text == "without-payload"@ {
            Some(text)
        } else {
            match after_first_dash(text) {
                Some(rest) => Some("with-"@ + rest),
                None => None,
            }
        }
    }

    proof fn lemma_lossless(&self) {
        reveal_strlit("without-payload");
        reveal_strlit("with-");
        match self {
            ExampleAttribute::WithoutPayload => {},
            ExampleAttribute::WithPayload(payload) => {
                let text = "with-"@ + payload@;
                assert(text[4] == '-');
                assert("without-payload"@[4] == 'o');
                assert(first_dash_at(text, 4));
                let chosen = choose|k: int| first_dash_at(text, k);
                lemma_first_dash_unique(text, 4, chosen);
                assert(text.subrange(5, text.len() as int) =~= payload@);
            },
        }
    }

    fn to_text(&self) -> (text: String) {
        match self {
            ExampleAttribute::WithoutPayload => String::from_str("without-payload"),
            ExampleAttribute::WithPayload(payload) => String::from_str("with-").concat(
                payload.as_str(),
            ),
        }
    }

    fn try_from_string(text: String) -> (result: Result<Self, AttributeError>) {
        ExampleAttribute::try_from(text)
    }

    fn duplicate(&self) -> (copy: Self) {
        self.clone()
    }
}

} // verus!
