//! Looking for one text in another.

use vstd::prelude::*;

verus! {

/// `needle` stands in `text` from position `at` on.
pub open spec fn occurs_at(needle: Seq<char>, text: Seq<char>, at: int) -> bool {
    0 <= at <= text.len() - needle.len() && text.subrange(at, at + needle.len()) == needle
}

/// `needle` stands somewhere in `text`.
pub open spec fn occurs(needle: Seq<char>, text: Seq<char>) -> bool {
    exists|at: int| occurs_at(needle, text, at)
}

/// What `str::to_lowercase` makes of a text: the mapping of the Unicode tables.
pub uninterp spec fn lowercase(text: Seq<char>) -> Seq<char>;

/// `str::to_lowercase`. Its result is named `lowercase`; it depends on the text alone.
#[verifier::external_body]
pub(crate) fn to_lowercase(text: &str) -> (lower: String)
    ensures
        lower@ == lowercase(text@),
{
    text.to_lowercase()
}

/// `str::contains` with a text as the pattern: whether the pattern is a part of the text.
#[verifier::external_body]
pub(crate) fn contains_text(text: &str, needle: &str) -> (found: bool)
    ensures
        found == occurs(needle@, text@),
{
    text.contains(needle)
}

/// `text` ends with `ending`.
pub open spec fn has_ending(text: Seq<char>, ending: Seq<char>) -> bool {
    occurs_at(ending, text, text.len() - ending.len())
}

/// `str::ends_with` with a text as the pattern: whether the pattern is the end of the text.
#[verifier::external_body]
pub(crate) fn ends_with_text(text: &str, ending: &str) -> (found: bool)
    ensures
        found == has_ending(text@, ending@),
{
    text.ends_with(ending)
}

/// A text occurs in itself, and at the end of any text that ends with it.
pub proof fn suffix_occurs(before: Seq<char>, needle: Seq<char>)
    ensures
        occurs(needle, needle),
        occurs(needle, before + needle),
{
    assert(needle.subrange(0, needle.len() as int) =~= needle);
    assert(occurs_at(needle, needle, 0));
    let text = before + needle;
    assert(text.subrange(before.len() as int, before.len() + needle.len() as int) =~= needle);
    assert(occurs_at(needle, text, before.len() as int));
}

/// A text contains another where it is made of something, the other, and something.
pub proof fn parts_of_a_text_occur(needle: Seq<char>, text: Seq<char>)
    ensures
        occurs(needle, text) <==> exists|before: Seq<char>, after: Seq<char>|
            text == #[trigger] (before + needle + after),
{
    if occurs(needle, text) {
        let at = choose|at: int| occurs_at(needle, text, at);
        let before = text.take(at);
        let after = text.skip(at + needle.len());
        let part = text.subrange(at, at + needle.len());
        assert(text =~= before + part + after);
        assert(text == before + needle + after);
    }
    if exists|before: Seq<char>, after: Seq<char>| text == #[trigger] (before + needle + after) {
        let (before, after) = choose|before: Seq<char>, after: Seq<char>|
            text == #[trigger] (before + needle + after);
        let at = before.len() as int;
        assert(text.subrange(at, at + needle.len()) =~= needle);
        assert(occurs_at(needle, text, at));
    }
}

/// A text ends with another where it is made of something and the other.
pub proof fn text_has_its_ending(text: Seq<char>, ending: Seq<char>)
    ensures
        has_ending(text, ending) <==> exists|before: Seq<char>|
            text == #[trigger] (before + ending),
{
    let at = text.len() - ending.len();
    if has_ending(text, ending) {
        let before = text.take(at);
        assert(text =~= before + text.subrange(at, at + ending.len()));
        assert(text == before + ending);
    }
    if exists|before: Seq<char>| text == #[trigger] (before + ending) {
        let before = choose|before: Seq<char>| text == #[trigger] (before + ending);
        assert(text.subrange(at, at + ending.len()) =~= ending);
    }
}

} // verus!
