//! HTML escaping of literal text.

use vstd::prelude::*;

verus! {

/// Whether `c` is one of the characters that HTML escaping replaces.
pub open spec fn is_html_special(c: char) -> bool {
    c == '&' || c == '<' || c == '>' || c == '"'
}

/// What one character becomes once escaped.
pub open spec fn entity_of(c: char) -> Seq<char> {
    if c == '&' {
        seq!['&', 'a', 'm', 'p', ';']
    } else if c == '<' {
        seq!['&', 'l', 't', ';']
    } else if c == '>' {
        seq!['&', 'g', 't', ';']
    } else if c == '"' {
        seq!['&', 'q', 'u', 'o', 't', ';']
    } else {
        seq![c]
    }
}

/// `s` with `&`, `<`, `>` and `"` replaced by their entities.
pub open spec fn escaped(s: Seq<char>) -> Seq<char>
    decreases s.len(),
{
    if s.len() == 0 {
        Seq::empty()
    } else {
        escaped(s.drop_last()) + entity_of(s.last())
    }
}

/// Relies on `html_escape::encode_double_quoted_attribute`, which replaces
/// `&`, `<`, `>` and `"` by `&amp;`, `&lt;`, `&gt;` and `&quot;` and copies
/// every other character.
#[verifier::external_body]
pub fn escape_html(s: &str) -> (r: String)
    ensures
        r@ == escaped(s@),
{
    html_escape::encode_double_quoted_attribute(s).into_owned()
}

/// Escaping text that holds none of `&`, `<`, `>`, `"` leaves it unchanged.
pub proof fn escape_plain_text_is_identity(s: Seq<char>)
    requires
        forall|i: int| 0 <= i < s.len() ==> !is_html_special(#[trigger] s[i]),
    ensures
        escaped(s) == s,
    decreases s.len(),
{
    if s.len() > 0 {
        let t = s.drop_last();
        assert forall|i: int| 0 <= i < t.len() implies !is_html_special(#[trigger] t[i]) by {
            assert(t[i] == s[i]);
        }
        escape_plain_text_is_identity(t);
        assert(!is_html_special(s[s.len() - 1]));
        assert(t.push(s.last()) =~= s);
    }
}

} // verus!
