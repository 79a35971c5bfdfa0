//! The member list: names separated by commas and line breaks.

use crate::text::{chars_of, trim_range, trimmed};
use vstd::prelude::*;
use vstd::utf8::{decode_utf8, valid_utf8};

verus! {

/// The bytes of the member list are not valid UTF-8.
#[derive(Debug, Clone, Copy, PartialEq, Eq)]
pub struct InvalidText;

/// A comma or a line feed ends a name.
pub open spec fn is_separator(c: char) -> bool {
    c == ',' || c == '\n'
}

/// `cut` is where the first separator of the text stands, or the length of
/// the text if it has none.
pub open spec fn is_first_separator(text: Seq<char>, cut: int) -> bool {
    &&& 0 <= cut <= text.len()
    &&& forall|i: int| 0 <= i < cut ==> !is_separator(#[trigger] text[i])
    &&& cut < text.len() ==> is_separator(text[cut])
}

/// Where the first separator of the text stands, or the length of the text
/// if it has none.
pub open spec fn first_separator(text: Seq<char>) -> int {
    choose|cut: int| is_first_separator(text, cut)
}

/// The names in a text: the pieces between separators, each without the
/// white space at its ends, those that are empty left out.
pub open spec fn members_of(text: Seq<char>) -> Seq<Seq<char>>
    decreases text.len(),
    via members_of_decreases
{
    let cut = first_separator(text);
    let name = trimmed(text.take(cut));
    let head = if name.len() > 0 {
        seq![name]
    } else {
        Seq::empty()
    };
    if cut >= text.len() {
        head
    } else {
        head + members_of(text.skip(cut + 1))
    }
}

#[via_fn]
proof fn members_of_decreases(text: Seq<char>) {
    lemma_first_separator(text);
}

/// Every text has exactly one first separator position.
proof fn lemma_first_separator(text: Seq<char>)
    ensures
        is_first_separator(text, first_separator(text)),
        forall|cut: int| is_first_separator(text, cut) ==> cut == first_separator(text),
{
    let _ = lemma_find_separator(text, 0);
}

proof fn lemma_find_separator(text: Seq<char>, from: int) -> (cut: int)
    requires
        0 <= from <= text.len(),
        forall|i: int| 0 <= i < from ==> !is_separator(#[trigger] text[i]),
    ensures
        is_first_separator(text, cut),
    decreases text.len() - from,
{
    if from == text.len() || is_separator(text[from]) {
        from
    } else {
        lemma_find_separator(text, from + 1)
    }
}

/// The names as sequences of characters.
pub open spec fn names_view(names: Seq<String>) -> Seq<Seq<char>> {
    Seq::new(names.len(), |i: int| names[i]@)
}

/// `core::str::from_utf8`: the text that the bytes encode when they are
/// valid UTF-8, and nothing when they are not.
#[verifier::external_body]
fn text_of(bytes: &[u8]) -> (text: Option<&str>)
    ensures
        text is Some <==> valid_utf8(bytes@),
        text matches Some(decoded) ==> decoded@ == decode_utf8(bytes@),
{
    match core::str::from_utf8(bytes) {
        Ok(decoded) => Some(decoded),
        Err(_) => None,
    }
}

/// `String::push` appends the character to the end of the string.
pub assume_specification[ String::push ](text: &mut String, c: char)
    ensures
        final(text)@ == old(text)@.push(c),
;

/// The characters `chars[from..to]` as a string.
fn string_of(chars: &Vec<char>, from: usize, to: usize) -> (text: String)
    requires
        from <= to <= chars@.len(),
    ensures
        text@ == chars@.subrange(from as int, to as int),
{
    let mut text = String::new();
    let mut i: usize = from;
    while i < to
        invariant
            from <= i <= to <= chars@.len(),
            text@ == chars@.subrange(from as int, i as int),
        decreases to - i,
    {
        text.push(chars[i]);
        assert(chars@.subrange(from as int, i as int).push(chars@[i as int]) =~= chars@.subrange(
            from as int,
            i as int + 1,
        ));
        i += 1;
    }
    text
}

/// Reads the names out of a text.
///
/// Commas and line feeds separate the names. White space around a name is
/// dropped, and so is a name of which nothing is left.
pub fn parse_members(text: &str) -> (members: Vec<String>)
    ensures
        names_view(members@) == members_of(text@),
{
    let chars = chars_of(text);
    let mut members: Vec<String> = Vec::new();
    let mut from: usize = 0;
    let mut done = false;
    proof {
        assert(chars@.skip(0) =~= chars@);
    }
    while !done
        invariant
            chars@ == text@,
            from <= chars@.len(),
            !done ==> names_view(members@) + members_of(chars@.skip(from as int)) == members_of(
                chars@,
            ),
            done ==> names_view(members@) == members_of(chars@),
        decreases chars@.len() - from + (if done { 0int } else { 1int }),
    {
        let ghost rest = chars@.skip(from as int);
        let mut cut: usize = from;
        while cut < chars.len() && chars[cut] != ',' && chars[cut] != '\n'
            invariant
                from <= cut <= chars@.len(),
                forall|i: int| from <= i < cut ==> !is_separator(#[trigger] chars@[i]),
            decreases chars@.len() - cut,
        {
            cut += 1;
        }
        proof {
            assert(is_first_separator(rest, cut - from));
            assert(rest.take(cut - from) =~= chars@.subrange(from as int, cut as int));
        }
        let (start, end) = trim_range(&chars, from, cut);
        if start < end {
            members.push(string_of(&chars, start, end));
        }
        if cut < chars.len() {
            proof {
                assert(rest.skip(cut - from + 1) =~= chars@.skip(cut as int + 1));
            }
            from = cut + 1;
        } else {
            done = true;
        }
    }
    members
}

/// Reads the names out of the bytes of a member list.
///
/// The bytes have to be valid UTF-8; the names are those of the text that
/// they encode.
pub fn load_members(bytes: &[u8]) -> (members: Result<Vec<String>, InvalidText>)
    ensures
        members is Ok <==> valid_utf8(bytes@),
        members matches Ok(names) ==> names_view(names@) == members_of(decode_utf8(bytes@)),
{
    match text_of(bytes) {
        Some(text) => Ok(parse_members(text)),
        None => Err(InvalidText),
    }
}

} // verus!
