//! Words as text: how a text splits into words, and when two words are the
//! same.

use vstd::prelude::*;
use vstd::std_specs::iter::IteratorSpec;
use vstd::utf8::{encode_utf8, encode_utf8_decode_utf8};

verus! {

/// The words of a list, each as its sequence of characters.
pub open spec fn texts(words: Seq<&str>) -> Seq<Seq<char>> {
    Seq::new(words.len(), |i: int| words[i]@)
}

/// The texts of a list of owned words.
pub open spec fn word_texts(words: Seq<String>) -> Seq<Seq<char>> {
    Seq::new(words.len(), |i: int| words[i]@)
}

/// Whether `char::is_whitespace` holds of a character: whether it has the
/// Unicode property `White_Space`.
pub uninterp spec fn is_space(c: char) -> bool;

/// `char::is_whitespace` tells whether a character is white space.
pub assume_specification[ char::is_whitespace ](c: char) -> (space: bool)
    ensures
        space == is_space(c),
;

/// `String::push` appends one character to a string.
#[verifier::external_body]
fn push_char(word: &mut String, c: char)
    ensures
        final(word)@ == old(word)@.push(c),
{
    word.push(c);
}

/// The words of a text: its longest runs of characters that are not white
/// space, in order.
pub open spec fn words_of(text: Seq<char>) -> Seq<Seq<char>>
    decreases text.len(),
{
    if text.len() == 0 {
        Seq::empty()
    } else {
        let before = words_of(text.drop_last());
        let c = text.last();
        if is_space(c) {
            before
        } else if text.len() > 1 && !is_space(text[text.len() - 2]) {
            before.drop_last().push(before.last().push(c))
        } else {
            before.push(seq![c])
        }
    }
}

/// Splits a text into its words. White space of any length separates two
/// words; white space at the start and the end of the text is dropped.
pub fn tokenize(content: &str) -> (words: Vec<String>)
    ensures
        word_texts(words@) == words_of(content@),
{
    let mut words: Vec<String> = Vec::new();
    let mut current = String::new();
    let mut chars = content.chars();
    let ghost mut seen: Seq<char> = Seq::empty();
    proof {
        vstd::string::axiom_spec_iter(content);
        assert(word_texts(words@) =~= words_of(seen));
        assert(seen + chars.remaining() =~= content@);
    }
    loop
        invariant
            seen + chars.remaining() == content@,
            current@.len() > 0 <==> seen.len() > 0 && !is_space(seen.last()),
            words_of(seen) == if current@.len() > 0 {
                word_texts(words@).push(current@)
            } else {
                word_texts(words@)
            },
        ensures
            seen == content@,
        decreases content@.len() - seen.len(),
    {
        let ghost rest = chars.remaining();
        let ghost done = word_texts(words@);
        let ghost word = current@;
        match chars.next() {
            Some(c) => {
                proof {
                    assert(seen.push(c).drop_last() =~= seen);
                    assert(seen.push(c) + rest.drop_first() =~= content@);
                }
                if c.is_whitespace() {
                    if !current.as_str().is_empty() {
                        words.push(current);
                        current = String::new();
                        assert(word_texts(words@) =~= done.push(word));
                    }
                } else {
                    push_char(&mut current, c);
                    proof {
                        if word.len() > 0 {
                            assert(done.push(word).drop_last() =~= done);
                        } else {
                            assert(current@ =~= seq![c]);
                        }
                    }
                }
                proof {
                    seen = seen.push(c);
                }
            },
            None => {
                assert(seen =~= content@);
                break ;
            },
        }
    }
    if !current.as_str().is_empty() {
        let ghost done = word_texts(words@);
        let ghost word = current@;
        words.push(current);
        assert(word_texts(words@) =~= done.push(word));
    }
    words
}

/// Tells whether two words are the same text, by comparing their bytes.
pub fn same_text(a: &str, b: &str) -> (same: bool)
    ensures
        same == (a@ == b@),
{
    let left = a.as_bytes();
    let right = b.as_bytes();
    proof {
        encode_utf8_decode_utf8(a@);
        encode_utf8_decode_utf8(b@);
    }
    if left.len() != right.len() {
        return false;
    }
    let mut i: usize = 0;
    while i < left.len()
        invariant
            i <= left@.len(),
            left@.len() == right@.len(),
            left@ == encode_utf8(a@),
            right@ == encode_utf8(b@),
            forall|j: int| 0 <= j < i ==> left@[j] == right@[j],
        decreases left@.len() - i,
    {
        if left[i] != right[i] {
            return false;
        }
        i += 1;
    }
    assert(left@ =~= right@);
    true
}

} // verus!
