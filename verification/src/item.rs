//! A candidate line of searchable text.
//!
//! An [`Item`] owns the text to display, the lowercase fold of each of its
//! characters for case-insensitive comparison, and the attribute changes that
//! were taken out of the raw line when style escape sequences were parsed.
//! Its fields are private and nothing changes an item once it is built, so
//! the invariant [`ItemView::wf`] holds of every item there is.

use crate::ansi::{
    is_clean, lemma_plain_text_identity, lemma_plain_text_is_clean, lemma_style_states_offsets,
    offsets_ordered, offsets_within, parse_ansi, plain_text, states_view, style_states, Attr,
};
use crate::text::{chars_of, fold_all, fold_chars, fold_lower, utf8_len};
use vstd::prelude::*;

verus! {

/// One line of input, ready to be searched and displayed.
pub struct Item {
    text: String,
    text_lower_chars: Vec<char>,
    ansi_states: Vec<(usize, Attr)>,
}

/// What an [`Item`] holds, as mathematical values.
pub struct ItemView {
    /// The characters of the display text.
    pub text: Seq<char>,
    /// The lowercase fold of each character of `text`, position by position.
    pub lower_chars: Seq<char>,
    /// Pairs of a byte offset into `text` and the attribute that takes effect
    /// there.
    pub ansi_states: Seq<(nat, Attr)>,
}

impl ItemView {
    /// The invariant of an item: every character has its fold at the same
    /// position, and the attribute changes are ordered by offsets that lie
    /// within the text.
    pub open spec fn wf(self) -> bool {
        &&& self.lower_chars == fold_all(self.text)
        &&& offsets_ordered(self.ansi_states)
        &&& offsets_within(self.ansi_states, 0, utf8_len(self.text))
    }
}

impl View for Item {
    type V = ItemView;

    closed spec fn view(&self) -> ItemView {
        ItemView {
            text: self.text@,
            lower_chars: self.text_lower_chars@,
            ansi_states: states_view(self.ansi_states@),
        }
    }
}

impl Item {
    #[verifier::type_invariant]
    spec fn inv(self) -> bool {
        self@.wf()
    }

    /// The item that a raw line gives rise to.
    ///
    /// With `use_ansi` the display text is the line without its escape
    /// sequences and the attribute changes are those of its style sequences;
    /// without it the line is displayed as it is and there are no attribute
    /// changes.
    pub open spec fn model(text: Seq<char>, use_ansi: bool) -> ItemView {
        let display = if use_ansi {
            plain_text(text)
        } else {
            text
        };
        ItemView {
            text: display,
            lower_chars: fold_all(display),
            ansi_states: if use_ansi {
                style_states(text)
            } else {
                Seq::empty()
            },
        }
    }

    /// Builds the item for one line of input.
    pub fn new(text: String, use_ansi: bool) -> (item: Item)
        ensures
            item@ == Item::model(text@, use_ansi),
            item@.wf(),
            use_ansi ==> is_clean(item@.text),
    {
        proof {
            lemma_model_wf(text@, use_ansi);
            lemma_plain_text_is_clean(text@);
        }
        if use_ansi {
            let (plain, states) = parse_ansi(text.as_str());
            let lower = fold_chars(&chars_of(plain.as_str()));
            Item { text: plain, text_lower_chars: lower, ansi_states: states }
        } else {
            let lower = fold_chars(&chars_of(text.as_str()));
            let states: Vec<(usize, Attr)> = Vec::new();
            assert(states_view(states@) =~= Seq::<(nat, Attr)>::empty());
            Item { text, text_lower_chars: lower, ansi_states: states }
        }
    }

    /// The text to display.
    pub fn get_text(&self) -> (text: &str)
        ensures
            text@ == self@.text,
            self@.wf(),
    {
        proof {
            use_type_invariant(self);
        }
        self.text.as_str()
    }

    /// The lowercase fold of each character of the text, in order.
    pub fn get_lower_chars(&self) -> (lower: &[char])
        ensures
            lower@ == self@.lower_chars,
            self@.wf(),
    {
        proof {
            use_type_invariant(self);
        }
        self.text_lower_chars.as_slice()
    }

    /// The attribute changes, ordered by byte offset into the text.
    pub fn get_ansi_states(&self) -> (states: &Vec<(usize, Attr)>)
        ensures
            states_view(states@) == self@.ansi_states,
            self@.wf(),
    {
        proof {
            use_type_invariant(self);
        }
        &self.ansi_states
    }
}

/// Every item that can be built meets the invariant: its attribute changes
/// are ordered by offset, and each offset lies within the text or just at its
/// end.
pub proof fn lemma_model_wf(text: Seq<char>, use_ansi: bool)
    ensures
        Item::model(text, use_ansi).wf(),
{
    if use_ansi {
        lemma_style_states_offsets(text);
    }
}

/// A line that is not parsed is displayed as it is, with no attribute
/// changes.
pub proof fn lemma_unparsed_line_is_kept(text: Seq<char>)
    ensures
        Item::model(text, false).text == text,
        Item::model(text, false).ansi_states.len() == 0,
{
}

/// The folded characters stand one for one beside the characters of the
/// display text: there are as many, and each is the lowercase fold of the
/// character at its position.
pub proof fn lemma_lower_chars_positional(text: Seq<char>, use_ansi: bool)
    ensures
        ({
            let item = Item::model(text, use_ansi);
            &&& item.lower_chars.len() == item.text.len()
            &&& forall|i: int|
                0 <= i < item.text.len() ==> item.lower_chars[i] == fold_lower(item.text[i])
        }),
{
}

/// A parsed line is displayed without any escape character.
pub proof fn lemma_parsed_text_is_clean(text: Seq<char>)
    ensures
        is_clean(Item::model(text, true).text),
{
    lemma_plain_text_is_clean(text);
}

/// A line gives the same item whether it is parsed or not exactly when it
/// holds no escape character, and that item has no attribute changes.
pub proof fn lemma_clean_line_same_item(text: Seq<char>)
    ensures
        Item::model(text, true) == Item::model(text, false) <==> is_clean(text),
        Item::model(text, true).text == text <==> is_clean(text),
        is_clean(text) ==> Item::model(text, true).ansi_states.len() == 0,
{
    lemma_plain_text_identity(text);
}

} // verus!
