//! How many columns characters take.

use vstd::prelude::*;

verus! {

/// The columns that `unicode_width` gives to a character.
pub uninterp spec fn char_columns(c: char) -> Option<usize>;

/// Whether a character is a control character other than the null character.
pub open spec fn is_control(c: char) -> bool {
    '\u{1}' <= c <= '\u{1f}' || '\u{7f}' <= c <= '\u{9f}'
}

/// The displayed width of a character, by `unicode_width`'s `UnicodeWidthChar::width`. It
/// is a function of the character: nothing for control characters, 1 for the other ASCII
/// characters but the null character, and never more than 2. The Unicode tables that say
/// the rest are left unsaid.
#[verifier::external_body]
pub(crate) fn char_width(c: char) -> (columns: Option<usize>)
    ensures
        columns == char_columns(c),
        columns is None <==> is_control(c),
        ' ' <= c <= '~' ==> columns == Some(1usize),
        columns matches Some(n) ==> n <= 2,
{
    unicode_width::UnicodeWidthChar::width(c)
}

/// The columns of each character of a text.
pub fn char_widths(text: &Vec<char>) -> (widths: Vec<Option<usize>>)
    ensures
        widths@ == text@.map_values(|c: char| char_columns(c)),
        forall|i: int| 0 <= i < widths@.len() ==> (#[trigger] widths@[i] matches Some(n) ==> n <= 2),
{
    let mut widths: Vec<Option<usize>> = Vec::new();
    let mut i: usize = 0;
    while i < text.len()
        invariant
            i <= text@.len(),
            widths@.len() == i,
            forall|j: int| 0 <= j < i ==> #[trigger] widths@[j] == char_columns(text@[j]),
            forall|j: int|
                0 <= j < widths@.len() ==> (#[trigger] widths@[j] matches Some(n) ==> n <= 2),
        decreases text@.len() - i,
    {
        widths.push(char_width(text[i]));
        i = i + 1;
    }
    assert(widths@ =~= text@.map_values(|c: char| char_columns(c)));
    widths
}

}
