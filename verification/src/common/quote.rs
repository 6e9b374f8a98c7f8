//! Text in quotes: as `{:?}` shows it, and as JSON writes it.

use vstd::prelude::*;

use crate::common::text::hex_digit;

verus! {

/// What `{:?}` makes of a text: quotes around it, and an escape for each
/// character that std escapes.
pub uninterp spec fn debug_text(s: Seq<char>) -> Seq<char>;

/// `s` as std's `Debug` for `str` writes it. Which characters std escapes
/// comes from its Unicode tables, so the result has a name. What is claimed of it
/// is that it is a function of the text, and that no line ends in it: a line feed
/// is written as `\n`.
#[verifier::external_body]
pub(crate) fn debug_quoted(s: &str) -> (r: String)
    ensures
        r@ == debug_text(s@),
        forall|i: int| 0 <= i < r@.len() ==> #[trigger] r@[i] != '\n',
{
    format!("{:?}", s)
}

/// What JSON makes of a character in a text. The quote, the backslash and the
/// control characters below the blank are escaped, and nothing else.
pub open spec fn json_char(c: char) -> Seq<char> {
    if c == '"' {
        seq!['\\', '"']
    } else if c == '\\' {
        seq!['\\', '\\']
    } else if c == '\n' {
        seq!['\\', 'n']
    } else if c == '\r' {
        seq!['\\', 'r']
    } else if c == '\t' {
        seq!['\\', 't']
    } else if c as u32 == 0x8 {
        seq!['\\', 'b']
    } else if c as u32 == 0xc {
        seq!['\\', 'f']
    } else if (c as u32) < 0x20 {
        seq![
            '\\',
            'u',
            '0',
            '0',
            hex_digit((c as u32 / 16) as u8),
            hex_digit((c as u32 % 16) as u8),
        ]
    } else {
        seq![c]
    }
}

/// What JSON makes of a text between its quotes.
pub open spec fn json_chars(s: Seq<char>) -> Seq<char>
    decreases s.len(),
{
    if s.len() == 0 {
        Seq::empty()
    } else {
        json_chars(s.drop_last()) + json_char(s.last())
    }
}

/// What JSON makes of a text: quotes around it, and an escape for each
/// character that needs one.
pub open spec fn json_text(s: Seq<char>) -> Seq<char> {
    seq!['"'] + json_chars(s) + seq!['"']
}

/// `serde_json::to_string` of a `str`: the text in quotes, with the escapes that
/// JSON needs. It writes into memory, where nothing can fail.
#[verifier::external_body]
pub(crate) fn json_quoted(s: &str) -> (r: String)
    ensures
        r@ == json_text(s@),
{
    serde_json::to_string(s).expect("a text in memory")
}

proof fn lemma_json_char_is_printable(c: char)
    ensures
        forall|i: int| 0 <= i < json_char(c).len() ==> #[trigger] json_char(c)[i] as u32 >= 0x20,
{
}

proof fn lemma_json_chars_are_printable(s: Seq<char>)
    ensures
        forall|i: int| 0 <= i < json_chars(s).len() ==> #[trigger] json_chars(s)[i] as u32 >= 0x20,
    decreases s.len(),
{
    if s.len() > 0 {
        lemma_json_chars_are_printable(s.drop_last());
        lemma_json_char_is_printable(s.last());
        let a = json_chars(s.drop_last());
        let b = json_char(s.last());
        assert forall|i: int| 0 <= i < json_chars(s).len() implies #[trigger] json_chars(s)[i]
            as u32 >= 0x20 by {
            if i < a.len() {
                assert(json_chars(s)[i] == a[i]);
            } else {
                assert(json_chars(s)[i] == b[i - a.len()]);
            }
        }
    }
}

/// No control character below the blank is left in what JSON makes of a text, so
/// it is one line.
pub proof fn law_a_json_text_is_one_line(s: Seq<char>)
    ensures
        forall|i: int| 0 <= i < json_text(s).len() ==> #[trigger] json_text(s)[i] as u32 >= 0x20,
{
    lemma_json_chars_are_printable(s);
}

} // verus!
