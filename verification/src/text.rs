//! Characters as the rest of the crate sees them: their width in UTF-8, the
//! byte length of a character sequence, and the one-to-one lowercase fold that
//! case-insensitive matching compares against.

use vstd::prelude::*;
use vstd::utf8::{encode_scalar, encode_utf8};

verus! {

/// Number of bytes that `c` occupies in UTF-8.
pub open spec fn utf8_width(c: char) -> nat {
    encode_scalar(c as u32).len()
}

/// Number of bytes that the character sequence `s` occupies in UTF-8.
pub open spec fn utf8_len(s: Seq<char>) -> nat {
    encode_utf8(s).len()
}

/// The byte length of a concatenation is the sum of the byte lengths.
pub proof fn lemma_utf8_len_concat(a: Seq<char>, b: Seq<char>)
    ensures
        utf8_len(a + b) == utf8_len(a) + utf8_len(b),
    decreases a.len(),
{
    if a.len() == 0 {
        assert(a + b =~= b);
    } else {
        assert((a + b).drop_first() =~= a.drop_first() + b);
        lemma_utf8_len_concat(a.drop_first(), b);
    }
}

/// Appending one character adds its width.
pub proof fn lemma_utf8_len_push(s: Seq<char>, c: char)
    ensures
        utf8_len(s.push(c)) == utf8_len(s) + utf8_width(c),
{
    let one = seq![c];
    assert(one.drop_first() =~= Seq::<char>::empty());
    assert(encode_utf8(one.drop_first()) =~= Seq::<u8>::empty());
    assert(encode_utf8(one) =~= encode_scalar(c as u32));
    assert(s.push(c) =~= s + one);
    lemma_utf8_len_concat(s, one);
}

/// The characters of `s`, in order, for indexed access.
pub fn chars_of(s: &str) -> (chars: Vec<char>)
    ensures
        chars@ == s@,
{
    let mut chars: Vec<char> = Vec::new();
    for c in it: s.chars()
        invariant
            it.seq() == s@,
            chars@ == it.seq().take(it.index() as int),
    {
        chars.push(c);
    }
    chars
}

/// `String::push` appends the character `ch` to the end of the string and
/// changes nothing else of it.
pub assume_specification[ String::push ](s: &mut String, ch: char)
    ensures
        final(s)@ == old(s)@.push(ch),
;

/// The lowercase mapping that the standard library gives for `c`: the
/// scalars that `char::to_lowercase` yields, in order.
pub uninterp spec fn lowercase_mapping(c: char) -> Seq<char>;

/// Asks `char::to_lowercase` for the lowercase mapping of `c` and collects
/// what the returned iterator yields. Nothing is claimed about which scalars
/// these are, only that they depend on `c` alone.
#[verifier::external_body]
fn lowercase_of(c: char) -> (mapping: Vec<char>)
    ensures
        mapping@ == lowercase_mapping(c),
{
    c.to_lowercase().collect()
}

/// The fold of `c` given its lowercase mapping: the first scalar of the
/// mapping, or `c` itself if the mapping is empty.
pub open spec fn fold_with(mapping: Seq<char>, c: char) -> char {
    if mapping.len() > 0 {
        mapping[0]
    } else {
        c
    }
}

/// The lowercase fold of a single character. It always yields exactly one
/// character, so folding keeps positions: a mapping of several scalars
/// contributes only its first.
pub open spec fn fold_lower(c: char) -> char {
    fold_with(lowercase_mapping(c), c)
}

/// The fold applied to each character of `s`, position by position.
pub open spec fn fold_all(s: Seq<char>) -> Seq<char> {
    Seq::new(s.len(), |i: int| fold_lower(s[i]))
}

/// Picks the fold of `c` from its lowercase mapping.
pub fn fold_char(mapping: &Vec<char>, c: char) -> (folded: char)
    ensures
        folded == fold_with(mapping@, c),
{
    if mapping.len() > 0 {
        mapping[0]
    } else {
        c
    }
}

/// The lowercase fold of `c`.
pub fn to_lower(c: char) -> (folded: char)
    ensures
        folded == fold_lower(c),
{
    fold_char(&lowercase_of(c), c)
}

/// The lowercase fold of every character of `chars`, in order.
pub fn fold_chars(chars: &Vec<char>) -> (folded: Vec<char>)
    ensures
        folded@ == fold_all(chars@),
{
    let mut folded: Vec<char> = Vec::with_capacity(chars.len());
    let mut i: usize = 0;
    while i < chars.len()
        invariant
            i <= chars.len(),
            folded@ == fold_all(chars@.take(i as int)),
        decreases chars.len() - i,
    {
        folded.push(to_lower(chars[i]));
        i += 1;
        assert(folded@ =~= fold_all(chars@.take(i as int)));
    }
    assert(chars@.take(chars.len() as int) =~= chars@);
    folded
}

} // verus!
