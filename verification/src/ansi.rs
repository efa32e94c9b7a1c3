//! Style escape sequences embedded in a line of text.
//!
//! A *style sequence* is the escape character, `[`, any number of parameter
//! characters (decimal digits and `;`) and a closing `m`. Parsing removes every
//! style sequence from the text and records, for each numeric code a sequence
//! carries, the byte offset in the remaining plain text at which it takes
//! effect.
//!
//! An escape character that does not begin a style sequence is malformed
//! input. The policy for it is fixed: the escape character alone is dropped,
//! and whatever follows it is ordinary text. The plain text therefore never
//! holds an escape character, so no escape sequence can survive in it.

use crate::text::{chars_of, lemma_utf8_len_push, utf8_len};
use vstd::prelude::*;

verus! {

/// A display attribute: the numeric code of a style sequence, handed on
/// uninterpreted.
pub type Attr = u32;

/// The escape character that opens every escape sequence.
pub const ESC: char = '\u{1b}';

pub open spec fn is_digit(c: char) -> bool {
    '0' <= c && c <= '9'
}

/// The characters that may stand between `[` and `m` in a style sequence.
pub open spec fn is_param_char(c: char) -> bool {
    is_digit(c) || c == ';'
}

/// Number of parameter characters that stand in `s` from `from` on without a gap.
pub open spec fn params_len(s: Seq<char>, from: int) -> nat
    decreases s.len() - from,
{
    if 0 <= from < s.len() && is_param_char(s[from]) {
        1 + params_len(s, from + 1)
    } else {
        0
    }
}

/// Where the parameters of a sequence opened at `i` stop: the position of the
/// first character after `ESC [` that is no parameter character.
pub open spec fn params_end(s: Seq<char>, i: int) -> int {
    i + 2 + params_len(s, i + 2)
}

/// Whether a style sequence begins at position `i` of `s`.
pub open spec fn style_at(s: Seq<char>, i: int) -> bool {
    &&& 0 <= i
    &&& i + 1 < s.len()
    &&& s[i] == ESC
    &&& s[i + 1] == '['
    &&& params_end(s, i) < s.len()
    &&& s[params_end(s, i)] == 'm'
}

/// The position just after the style sequence that begins at `i`.
pub open spec fn style_end(s: Seq<char>, i: int) -> int {
    params_end(s, i) + 1
}

/// The parameter characters of the style sequence that begins at `i`.
pub open spec fn style_params(s: Seq<char>, i: int) -> Seq<char> {
    s.subrange(i + 2, params_end(s, i))
}

pub open spec fn digit_value(c: char) -> nat
    recommends
        is_digit(c),
{
    (c as int - '0' as int) as nat
}

/// The number that a string of decimal digits denotes; the empty string denotes 0.
pub open spec fn decimal(digits: Seq<char>) -> nat
    decreases digits.len(),
{
    if digits.len() == 0 {
        0
    } else {
        decimal(digits.drop_last()) * 10 + digit_value(digits.last())
    }
}

/// A number as an attribute: itself, or the largest attribute if it is too big.
pub open spec fn clamp_code(n: nat) -> Attr {
    if n > u32::MAX {
        u32::MAX
    } else {
        n as u32
    }
}

/// Length of the first `;`-separated field of `p`.
pub open spec fn field_len(p: Seq<char>) -> nat
    decreases p.len(),
{
    if p.len() > 0 && p[0] != ';' {
        1 + field_len(p.drop_first())
    } else {
        0
    }
}

/// The codes that a parameter string carries: one per `;`-separated field,
/// in order, each the clamped decimal value of its field. There is always at
/// least one field, and an empty field is code 0.
pub open spec fn codes(p: Seq<char>) -> Seq<Attr>
    decreases p.len(),
{
    let k = field_len(p) as int;
    if k < p.len() {
        seq![clamp_code(decimal(p.take(k)))] + codes(p.skip(k + 1))
    } else {
        seq![clamp_code(decimal(p))]
    }
}

/// Each of `cs` paired with the offset `off`.
pub open spec fn tag(off: nat, cs: Seq<Attr>) -> Seq<(nat, Attr)> {
    Seq::new(cs.len(), |k: int| (off, cs[k]))
}

/// Whether position `k` of `s` lies within a style sequence.
pub open spec fn in_style(s: Seq<char>, k: int) -> bool {
    exists|i: int| #[trigger] style_at(s, i) && i <= k < style_end(s, i)
}

/// Whether parsing leaves out the character at position `k` of `s`: it is an
/// escape character, or it belongs to a style sequence.
pub open spec fn is_dropped(s: Seq<char>, k: int) -> bool {
    s[k] == ESC || in_style(s, k)
}

/// The plain text of the first `n` characters of `s`: those among them that
/// parsing keeps, in their order.
pub open spec fn plain_prefix(s: Seq<char>, n: int) -> Seq<char>
    decreases n,
{
    if n <= 0 {
        Seq::empty()
    } else if is_dropped(s, n - 1) {
        plain_prefix(s, n - 1)
    } else {
        plain_prefix(s, n - 1).push(s[n - 1])
    }
}

/// The attribute changes of the style sequences that begin among the first
/// `n` positions of `s`: in order of position, the codes of each sequence,
/// paired with the byte length of the plain text that precedes it.
pub open spec fn states_prefix(s: Seq<char>, n: int) -> Seq<(nat, Attr)>
    decreases n,
{
    if n <= 0 {
        Seq::empty()
    } else if style_at(s, n - 1) {
        states_prefix(s, n - 1) + tag(
            utf8_len(plain_prefix(s, n - 1)),
            codes(style_params(s, n - 1)),
        )
    } else {
        states_prefix(s, n - 1)
    }
}

/// The text `s` without its escape sequences.
pub open spec fn plain_text(s: Seq<char>) -> Seq<char> {
    plain_prefix(s, s.len() as int)
}

/// The attribute changes of `s`: for every code of every style sequence, in
/// order of appearance, the byte offset in `plain_text(s)` where it takes
/// effect, and the code.
pub open spec fn style_states(s: Seq<char>) -> Seq<(nat, Attr)> {
    states_prefix(s, s.len() as int)
}

/// Text that holds no escape character.
pub open spec fn is_clean(s: Seq<char>) -> bool {
    forall|k: int| 0 <= k < s.len() ==> s[k] != ESC
}

/// The offsets of `st` never decrease from one entry to the next.
pub open spec fn offsets_ordered(st: Seq<(nat, Attr)>) -> bool {
    forall|a: int, b: int| 0 <= a <= b < st.len() ==> st[a].0 <= st[b].0
}

/// Every offset of `st` lies between `lo` and `hi`, both included.
pub open spec fn offsets_within(st: Seq<(nat, Attr)>, lo: nat, hi: nat) -> bool {
    forall|k: int| 0 <= k < st.len() ==> lo <= (#[trigger] st[k]).0 <= hi
}

/// A list of attribute changes as stored, read as mathematical pairs.
pub open spec fn states_view(v: Seq<(usize, Attr)>) -> Seq<(nat, Attr)> {
    Seq::new(v.len(), |k: int| (v[k].0 as nat, v[k].1))
}

/// Whether `c` may stand among the parameters of a style sequence.
pub fn is_param(c: char) -> (yes: bool)
    ensures
        yes == is_param_char(c),
{
    (c >= '0' && c <= '9') || c == ';'
}

/// Looks for a style sequence that begins at position `i`, and returns the
/// position just after it if there is one.
pub fn style_end_at(chars: &Vec<char>, i: usize) -> (end: Option<usize>)
    ensures
        end is Some <==> style_at(chars@, i as int),
        end matches Some(e) ==> e == style_end(chars@, i as int) && i + 2 < e <= chars.len(),
{
    let n: usize = chars.len();
    if i >= n || n - i < 2 {
        return None;
    }
    if chars[i] != ESC || chars[i + 1] != '[' {
        return None;
    }
    let mut j: usize = i + 2;
    while j < n && is_param(chars[j])
        invariant
            n == chars.len(),
            i + 2 <= j <= n,
            params_len(chars@, i + 2) == (j - (i + 2)) + params_len(chars@, j as int),
        decreases n - j,
    {
        j += 1;
    }
    if j < n && chars[j] == 'm' {
        Some(j + 1)
    } else {
        None
    }
}

/// A clamped number with one more decimal digit written behind it.
spec fn shift_in(acc: Attr, c: char) -> Attr {
    clamp_code((acc * 10 + digit_value(c)) as nat)
}

/// Clamping before a digit is appended gives the same as clamping after.
proof fn lemma_shift_in_clamped(n: nat, c: char)
    requires
        is_digit(c),
    ensures
        shift_in(clamp_code(n), c) == clamp_code(n * 10 + digit_value(c)),
{
}

/// A field is as long as its run of characters other than `;`.
proof fn lemma_field_len(p: Seq<char>, m: int)
    requires
        0 <= m <= p.len(),
        forall|k: int| 0 <= k < m ==> p[k] != ';',
        m < p.len() ==> p[m] == ';',
    ensures
        field_len(p) == m,
    decreases m,
{
    if m > 0 {
        lemma_field_len(p.drop_first(), m - 1);
    }
}

/// Writes the digit `c` behind the clamped number `acc`.
fn append_digit(acc: Attr, c: char) -> (next: Attr)
    requires
        is_digit(c),
    ensures
        next == shift_in(acc, c),
{
    let digit: u64 = (c as u32 - '0' as u32) as u64;
    let wide: u64 = acc as u64 * 10 + digit;
    if wide > u32::MAX as u64 {
        u32::MAX
    } else {
        wide as u32
    }
}

/// Reads the field that begins at `from` in the parameters `chars[from..to]`:
/// returns where the field stops and the code it denotes.
fn parse_field(chars: &Vec<char>, from: usize, to: usize) -> (field: (usize, Attr))
    requires
        from <= to <= chars.len(),
        forall|k: int| from <= k < to ==> is_param_char(chars@[k]),
    ensures
        field.0 == from + field_len(chars@.subrange(from as int, to as int)),
        from <= field.0 <= to,
        field.0 < to ==> chars@[field.0 as int] == ';',
        field.1 == clamp_code(decimal(chars@.subrange(from as int, field.0 as int))),
{
    let ghost s = chars@;
    let mut j: usize = from;
    let mut acc: Attr = 0;
    while j < to && chars[j] != ';'
        invariant
            s == chars@,
            from <= j <= to <= s.len(),
            forall|k: int| from <= k < to ==> is_param_char(s[k]),
            forall|k: int| from <= k < j ==> s[k] != ';',
            acc == clamp_code(decimal(s.subrange(from as int, j as int))),
        decreases to - j,
    {
        proof {
            let before = s.subrange(from as int, j as int);
            let after = s.subrange(from as int, j + 1);
            assert(after.drop_last() =~= before);
            assert(after.last() == s[j as int]);
            lemma_shift_in_clamped(decimal(before), s[j as int]);
        }
        acc = append_digit(acc, chars[j]);
        j += 1;
    }
    proof {
        lemma_field_len(s.subrange(from as int, to as int), j - from);
    }
    (j, acc)
}

/// Appends to `states` the codes of the parameters `chars[from..to]`, each
/// paired with the offset `off`.
fn push_codes(
    chars: &Vec<char>,
    from: usize,
    to: usize,
    off: usize,
    states: &mut Vec<(usize, Attr)>,
)
    requires
        from <= to <= chars.len(),
        forall|k: int| from <= k < to ==> is_param_char(chars@[k]),
    ensures
        states_view(final(states)@) == states_view(old(states)@) + tag(
            off as nat,
            codes(chars@.subrange(from as int, to as int)),
        ),
{
    let ghost s = chars@;
    let ghost target = states_view(states@) + tag(
        off as nat,
        codes(s.subrange(from as int, to as int)),
    );
    let mut start: usize = from;
    loop
        invariant_except_break
            s == chars@,
            from <= start <= to <= s.len(),
            forall|k: int| from <= k < to ==> is_param_char(s[k]),
            states_view(states@) + tag(off as nat, codes(s.subrange(start as int, to as int)))
                == target,
        ensures
            states_view(states@) == target,
        decreases to - start,
    {
        let (stop, code) = parse_field(chars, start, to);
        let ghost before = states_view(states@);
        states.push((off, code));
        proof {
            let p = s.subrange(start as int, to as int);
            let k = stop - start;
            assert(p.take(k) =~= s.subrange(start as int, stop as int));
            assert(states_view(states@) =~= before.push((off as nat, code)));
            if stop < to {
                assert(p.skip(k + 1) =~= s.subrange(stop + 1, to as int));
                let rest = codes(s.subrange(stop + 1, to as int));
                assert(tag(off as nat, seq![code] + rest) =~= seq![(off as nat, code)] + tag(
                    off as nat,
                    rest,
                ));
                assert(before.push((off as nat, code)) + tag(off as nat, rest) =~= before
                    + (seq![(off as nat, code)] + tag(off as nat, rest)));
            } else {
                assert(p.take(k) =~= p);
                assert(tag(off as nat, seq![code]) =~= seq![(off as nat, code)]);
                assert(before.push((off as nat, code)) =~= before + seq![(off as nat, code)]);
            }
        }
        if stop >= to {
            break;
        }
        start = stop + 1;
    }
}

/// Splits a line into its plain text and its attribute changes.
///
/// The plain text is `text` without its escape sequences; each attribute
/// change is a code of a style sequence together with the byte offset in the
/// plain text at which the sequence stood.
pub fn parse_ansi(text: &str) -> (parsed: (String, Vec<(usize, Attr)>))
    ensures
        parsed.0@ == plain_text(text@),
        states_view(parsed.1@) == style_states(text@),
{
    let chars = chars_of(text);
    let n: usize = chars.len();
    let ghost s = chars@;
    let mut plain = String::new();
    let mut states: Vec<(usize, Attr)> = Vec::new();
    let mut i: usize = 0;
    proof {
        assert(states_view(states@) =~= states_prefix(s, 0));
    }
    while i < n
        invariant
            s == chars@,
            n == s.len(),
            i <= n,
            is_boundary(s, i as int),
            plain@ == plain_prefix(s, i as int),
            states_view(states@) == states_prefix(s, i as int),
        decreases n - i,
    {
        let c = chars[i];
        match style_end_at(&chars, i) {
            Some(end) => {
                // The bytes of the plain text so far; a slice knows its
                // length without a cast.
                let off: usize = plain.as_str().as_bytes().len();
                proof {
                    lemma_step_over_style(s, i as int);
                    lemma_params_are_param_chars(s, i as int + 2);
                }
                push_codes(&chars, i + 2, end - 1, off, &mut states);
                i = end;
            },
            None => {
                proof {
                    lemma_step_over_char(s, i as int);
                }
                if c != ESC {
                    plain.push(c);
                }
                i += 1;
            },
        }
    }
    (plain, states)
}

/// No style sequence that begins before `i` reaches beyond `i`.
spec fn is_boundary(s: Seq<char>, i: int) -> bool {
    forall|j: int| j < i && #[trigger] style_at(s, j) ==> style_end(s, j) <= i
}

/// A stretch of dropped characters adds nothing to the plain text.
proof fn lemma_plain_prefix_skip(s: Seq<char>, i: int, e: int)
    requires
        i <= e,
        forall|k: int| i <= k < e ==> #[trigger] is_dropped(s, k),
    ensures
        plain_prefix(s, e) == plain_prefix(s, i),
    decreases e - i,
{
    if i < e {
        lemma_plain_prefix_skip(s, i, e - 1);
        assert(is_dropped(s, e - 1));
    }
}

/// A stretch in which no style sequence begins adds no attribute change.
proof fn lemma_states_prefix_skip(s: Seq<char>, i: int, e: int)
    requires
        i <= e,
        forall|k: int| i <= k < e ==> !#[trigger] style_at(s, k),
    ensures
        states_prefix(s, e) == states_prefix(s, i),
    decreases e - i,
{
    if i < e {
        lemma_states_prefix_skip(s, i, e - 1);
        assert(!style_at(s, e - 1));
    }
}

/// Passing over the style sequence that begins at a boundary leads to a
/// boundary, adds nothing to the plain text, and adds the codes of the
/// sequence at the byte length of the plain text so far.
proof fn lemma_step_over_style(s: Seq<char>, i: int)
    requires
        is_boundary(s, i),
        style_at(s, i),
    ensures
        is_boundary(s, style_end(s, i)),
        plain_prefix(s, style_end(s, i)) == plain_prefix(s, i),
        states_prefix(s, style_end(s, i)) == states_prefix(s, i) + tag(
            utf8_len(plain_prefix(s, i)),
            codes(style_params(s, i)),
        ),
{
    let e = style_end(s, i);
    lemma_style_shape(s, i);
    assert forall|k: int| i <= k < e implies #[trigger] is_dropped(s, k) by {
        assert(style_at(s, i) && i <= k < style_end(s, i));
    }
    lemma_plain_prefix_skip(s, i, e);
    assert forall|k: int| i + 1 <= k < e implies !#[trigger] style_at(s, k) by {
        assert(s[k] != ESC);
    }
    lemma_states_prefix_skip(s, i + 1, e);
    assert forall|j: int| j < e && #[trigger] style_at(s, j) implies style_end(s, j) <= e by {
        if i < j {
            assert(s[j] != ESC);
        }
    }
}

/// Passing over a character at a boundary where no style sequence begins
/// leads to a boundary and adds no attribute change; the character joins the
/// plain text unless it is an escape character.
proof fn lemma_step_over_char(s: Seq<char>, i: int)
    requires
        0 <= i < s.len(),
        is_boundary(s, i),
        !style_at(s, i),
    ensures
        is_boundary(s, i + 1),
        states_prefix(s, i + 1) == states_prefix(s, i),
        plain_prefix(s, i + 1) == if s[i] == ESC {
            plain_prefix(s, i)
        } else {
            plain_prefix(s, i).push(s[i])
        },
{
    if s[i] != ESC {
        assert(!in_style(s, i));
    }
}

/// The run of parameters stays within the text, and every position in it
/// holds a parameter character.
proof fn lemma_params_are_param_chars(s: Seq<char>, from: int)
    ensures
        0 <= from <= s.len() ==> from + params_len(s, from) <= s.len(),
        forall|k: int|
            from <= k < from + params_len(s, from) ==> is_param_char(#[trigger] s[k]),
    decreases s.len() - from,
{
    if 0 <= from < s.len() && is_param_char(s[from]) {
        lemma_params_are_param_chars(s, from + 1);
    }
}

/// A run of parameter characters that is followed by another character, or
/// by the end of the text, is the whole run.
proof fn lemma_params_len(s: Seq<char>, from: int, to: int)
    requires
        0 <= from <= to <= s.len(),
        forall|k: int| from <= k < to ==> is_param_char(s[k]),
        to < s.len() ==> !is_param_char(s[to]),
    ensures
        params_len(s, from) == to - from,
    decreases to - from,
{
    if from < to {
        lemma_params_len(s, from + 1, to);
    }
}

/// The grammar of a style sequence: the escape character at `i`, then `[`,
/// then parameter characters up to `j`, then `m` at `j`, is a style sequence
/// that begins at `i` and ends just after `j`.
pub proof fn lemma_style_sequence(s: Seq<char>, i: int, j: int)
    requires
        0 <= i,
        i + 2 <= j < s.len(),
        s[i] == ESC,
        s[i + 1] == '[',
        forall|k: int| i + 2 <= k < j ==> is_param_char(s[k]),
        s[j] == 'm',
    ensures
        style_at(s, i),
        style_end(s, i) == j + 1,
        style_params(s, i) == s.subrange(i + 2, j),
{
    lemma_params_len(s, i + 2, j);
}

/// A style sequence has the shape that the grammar gives: it opens with the
/// escape character and `[`, ends with `m`, and holds only parameter
/// characters in between, so no escape character stands inside it.
pub proof fn lemma_style_shape(s: Seq<char>, i: int)
    requires
        style_at(s, i),
    ensures
        i + 3 <= style_end(s, i) <= s.len(),
        s[i] == ESC,
        s[i + 1] == '[',
        s[style_end(s, i) - 1] == 'm',
        forall|k: int| i + 2 <= k < style_end(s, i) - 1 ==> is_param_char(#[trigger] s[k]),
        forall|k: int| i < k < style_end(s, i) ==> #[trigger] s[k] != ESC,
{
    lemma_params_are_param_chars(s, i + 2);
}

/// Style sequences do not overlap: where one begins inside the reach of
/// another, the two are the same.
pub proof fn lemma_styles_disjoint(s: Seq<char>, i: int, j: int)
    requires
        style_at(s, i),
        style_at(s, j),
        i <= j < style_end(s, i),
    ensures
        i == j,
{
    lemma_style_shape(s, i);
}

/// The plain text of a prefix holds no escape character, is never longer
/// than the prefix, in characters and in bytes, and grows with the prefix.
proof fn lemma_plain_prefix(s: Seq<char>, m: int, n: int)
    requires
        0 <= m <= n <= s.len(),
    ensures
        is_clean(plain_prefix(s, n)),
        plain_prefix(s, n).len() <= n,
        utf8_len(plain_prefix(s, n)) <= utf8_len(s.take(n)),
        utf8_len(plain_prefix(s, m)) <= utf8_len(plain_prefix(s, n)),
    decreases n,
{
    if n > 0 {
        let c = s[n - 1];
        assert(s.take(n) =~= s.take(n - 1).push(c));
        lemma_utf8_len_push(s.take(n - 1), c);
        lemma_utf8_len_push(plain_prefix(s, n - 1), c);
        if m < n {
            lemma_plain_prefix(s, m, n - 1);
        } else {
            lemma_plain_prefix(s, n - 1, n - 1);
        }
    } else {
        assert(s.take(0) =~= Seq::<char>::empty());
    }
}

/// Of clean text every prefix is its own plain text and has no attribute
/// change.
proof fn lemma_clean_prefix(s: Seq<char>, n: int)
    requires
        is_clean(s),
        0 <= n <= s.len(),
    ensures
        plain_prefix(s, n) == s.take(n),
        states_prefix(s, n) == Seq::<(nat, Attr)>::empty(),
    decreases n,
{
    if n > 0 {
        lemma_clean_prefix(s, n - 1);
        assert(!in_style(s, n - 1));
        assert(s.take(n) =~= s.take(n - 1).push(s[n - 1]));
    } else {
        assert(s.take(0) =~= Seq::<char>::empty());
    }
}

/// The attribute changes of a prefix are ordered by offset, and no offset
/// exceeds the byte length of the plain text of the prefix.
proof fn lemma_states_prefix_offsets(s: Seq<char>, n: int)
    requires
        0 <= n <= s.len(),
    ensures
        offsets_ordered(states_prefix(s, n)),
        offsets_within(states_prefix(s, n), 0, utf8_len(plain_prefix(s, n))),
    decreases n,
{
    if n > 0 {
        lemma_states_prefix_offsets(s, n - 1);
        lemma_plain_prefix(s, n - 1, n);
    }
}

/// The plain text holds no escape character, so no escape sequence, whole or
/// broken, is left in it.
pub proof fn lemma_plain_text_is_clean(s: Seq<char>)
    ensures
        is_clean(plain_text(s)),
{
    lemma_plain_prefix(s, 0, s.len() as int);
}

/// Parsing leaves a text as it is exactly when the text holds no escape
/// character; such a text has no attribute changes.
pub proof fn lemma_plain_text_identity(s: Seq<char>)
    ensures
        plain_text(s) == s <==> is_clean(s),
        is_clean(s) ==> style_states(s) == Seq::<(nat, Attr)>::empty(),
{
    lemma_plain_text_is_clean(s);
    if is_clean(s) {
        lemma_clean_prefix(s, s.len() as int);
        assert(s.take(s.len() as int) =~= s);
    }
}

/// Parsing a second time changes nothing and finds nothing.
pub proof fn lemma_plain_text_idempotent(s: Seq<char>)
    ensures
        plain_text(plain_text(s)) == plain_text(s),
        style_states(plain_text(s)) == Seq::<(nat, Attr)>::empty(),
{
    lemma_plain_text_is_clean(s);
    lemma_plain_text_identity(plain_text(s));
}

/// The plain text is never longer than the text, in characters and in bytes.
pub proof fn lemma_plain_text_len(s: Seq<char>)
    ensures
        plain_text(s).len() <= s.len(),
        utf8_len(plain_text(s)) <= utf8_len(s),
{
    lemma_plain_prefix(s, 0, s.len() as int);
    assert(s.take(s.len() as int) =~= s);
}

/// The offsets of the attribute changes never decrease, and each is a byte
/// position within the plain text or just at its end.
pub proof fn lemma_style_states_offsets(s: Seq<char>)
    ensures
        offsets_ordered(style_states(s)),
        offsets_within(style_states(s), 0, utf8_len(plain_text(s))),
{
    lemma_states_prefix_offsets(s, s.len() as int);
}

/// Every style sequence leaves at least one attribute change, and every
/// attribute change comes from a style sequence.
pub proof fn lemma_style_states_presence(s: Seq<char>)
    ensures
        style_states(s).len() > 0 <==> exists|i: int| #[trigger] style_at(s, i),
{
    lemma_states_prefix_presence(s, s.len() as int);
    if exists|i: int| #[trigger] style_at(s, i) {
        let i = choose|i: int| #[trigger] style_at(s, i);
        assert(0 <= i < s.len());
    }
}

/// A prefix has attribute changes exactly when a style sequence begins in it.
proof fn lemma_states_prefix_presence(s: Seq<char>, n: int)
    requires
        0 <= n <= s.len(),
    ensures
        states_prefix(s, n).len() > 0 <==> exists|i: int| 0 <= i < n && #[trigger] style_at(s, i),
    decreases n,
{
    if n > 0 {
        lemma_states_prefix_presence(s, n - 1);
        if style_at(s, n - 1) {
            lemma_codes_nonempty(style_params(s, n - 1));
        } else if exists|i: int| 0 <= i < n && #[trigger] style_at(s, i) {
            let i = choose|i: int| 0 <= i < n && #[trigger] style_at(s, i);
            assert(0 <= i < n - 1 && style_at(s, i));
        }
    }
}

/// A parameter string carries at least one code.
pub proof fn lemma_codes_nonempty(p: Seq<char>)
    ensures
        codes(p).len() >= 1,
    decreases p.len(),
{
    let k = field_len(p) as int;
    if k < p.len() {
        lemma_codes_nonempty(p.skip(k + 1));
    }
}

} // verus!
