//! Normalizing a raw text field into name tokens.
//!
//! A field such as `"Ab'cdbcd, E[$fg"` is cleaned of everything but word
//! characters and commas, lowercased, split at the commas and trimmed:
//! `["abcdbcd", "efg"]`.

use regex::Regex;
use vstd::prelude::*;
use vstd::string::*;

verus! {

/// The characters that the class `\w` of the `regex` crate matches: what
/// Unicode calls Alphabetic or Join_Control, and the general categories
/// Mark, Decimal_Number and Connector_Punctuation.
pub uninterp spec fn is_word_char(c: char) -> bool;

/// What `str::to_lowercase` makes of a string.
pub uninterp spec fn lowercased(s: Seq<char>) -> Seq<char>;

/// White space: the characters that Unicode calls White_Space. These are
/// the tab, the line feed, the vertical tab, the form feed, the carriage
/// return, the space, the next line, the no-break space, the Ogham space
/// mark, the spaces from the en quad to the hair space, the line and the
/// paragraph separator, the narrow no-break space, the medium mathematical
/// space and the ideographic space.
pub open spec fn is_white_space(c: char) -> bool {
    let code = c as u32;
    ||| 0x09 <= code <= 0x0D
    ||| code == 0x20
    ||| code == 0x85
    ||| code == 0xA0
    ||| code == 0x1680
    ||| 0x2000 <= code <= 0x200A
    ||| code == 0x2028
    ||| code == 0x2029
    ||| code == 0x202F
    ||| code == 0x205F
    ||| code == 0x3000
}

/// The pattern whose matches are removed from a field: any one character
/// that is neither a word character nor a comma.
pub const STRIP_PATTERN: &'static str = "[^\\w,]";

/// `text` without the characters that are neither word characters nor commas.
pub open spec fn stripped(text: Seq<char>) -> Seq<char> {
    text.filter(|c: char| c == ',' || is_word_char(c))
}

/// The pieces of `s` between its commas, in order. A string with `k` commas
/// has `k + 1` pieces, some of which may be empty.
pub open spec fn comma_pieces(s: Seq<char>) -> Seq<Seq<char>>
    decreases s.len(),
{
    if s.len() == 0 {
        seq![Seq::<char>::empty()]
    } else {
        let before = comma_pieces(s.drop_last());
        if s.last() == ',' {
            before.push(Seq::<char>::empty())
        } else {
            before.drop_last().push(before.last().push(s.last()))
        }
    }
}

/// `s` without its leading white space.
pub open spec fn trimmed_start(s: Seq<char>) -> Seq<char>
    decreases s.len(),
{
    if s.len() > 0 && is_white_space(s.first()) {
        trimmed_start(s.drop_first())
    } else {
        s
    }
}

/// `s` without its trailing white space.
pub open spec fn trimmed_end(s: Seq<char>) -> Seq<char>
    decreases s.len(),
{
    if s.len() > 0 && is_white_space(s.last()) {
        trimmed_end(s.drop_last())
    } else {
        s
    }
}

/// `s` without its leading and trailing white space.
pub open spec fn trimmed(s: Seq<char>) -> Seq<char> {
    trimmed_end(trimmed_start(s))
}

/// The name tokens of a raw field: cleaned, lowercased, split at the commas,
/// each piece trimmed.
pub open spec fn normalized_tokens(text: Seq<char>) -> Seq<Seq<char>> {
    comma_pieces(lowercased(stripped(text))).map_values(|piece: Seq<char>| trimmed(piece))
}

/// The pieces put together again, with a comma between each two.
pub open spec fn joined_by_commas(pieces: Seq<Seq<char>>) -> Seq<char>
    decreases pieces.len(),
{
    if pieces.len() == 0 {
        Seq::empty()
    } else if pieces.len() == 1 {
        pieces[0]
    } else {
        joined_by_commas(pieces.drop_last()).push(',') + pieces.last()
    }
}

/// Splitting undoes joining: the pieces of `s` hold no comma, and with
/// commas between them they make up `s` again.
pub proof fn lemma_comma_pieces_rejoin(s: Seq<char>)
    ensures
        comma_pieces(s).len() >= 1,
        joined_by_commas(comma_pieces(s)) == s,
        forall|i: int|
            0 <= i < comma_pieces(s).len() ==> !(#[trigger] comma_pieces(s)[i]).contains(','),
    decreases s.len(),
{
    if s.len() == 0 {
        assert(joined_by_commas(comma_pieces(s)) =~= s);
    } else {
        let before = comma_pieces(s.drop_last());
        let pieces = comma_pieces(s);
        lemma_comma_pieces_rejoin(s.drop_last());
        assert(s =~= s.drop_last().push(s.last()));
        if s.last() == ',' {
            assert(pieces.drop_last() =~= before);
            assert(joined_by_commas(pieces) =~= s);
        } else {
            let grown = before.last().push(s.last());
            assert(pieces.last() == grown);
            if before.len() == 1 {
                assert(joined_by_commas(pieces) =~= s);
            } else {
                assert(pieces.drop_last() =~= before.drop_last());
                assert(joined_by_commas(pieces) =~= joined_by_commas(before).push(s.last()));
            }
            assert forall|i: int| 0 <= i < pieces.len() implies !(#[trigger] pieces[i]).contains(
                ',',
            ) by {
                if i == pieces.len() - 1 {
                    if grown.contains(',') {
                        let k = choose|k: int| 0 <= k < grown.len() && grown[k] == ',';
                        assert(before.last()[k] == ',');
                        assert(before.last().contains(','));
                    }
                } else {
                    assert(pieces[i] == before[i]);
                }
            }
        }
    }
}

/// Where the first `i` characters of `s` are white space and the next one is
/// not, trimming the start leaves what follows them.
proof fn lemma_trimmed_start(s: Seq<char>, i: int)
    requires
        0 <= i <= s.len(),
        forall|k: int| 0 <= k < i ==> is_white_space(s[k]),
        i < s.len() ==> !is_white_space(s[i]),
    ensures
        trimmed_start(s) == s.subrange(i, s.len() as int),
    decreases i,
{
    if i == 0 {
        assert(s.subrange(0, s.len() as int) =~= s);
    } else {
        assert(is_white_space(s[0]));
        let rest = s.drop_first();
        assert forall|k: int| 0 <= k < i - 1 implies is_white_space(rest[k]) by {
            assert(rest[k] == s[k + 1]);
        }
        lemma_trimmed_start(rest, i - 1);
        assert(rest.subrange(i - 1, rest.len() as int) =~= s.subrange(i, s.len() as int));
    }
}

/// Where the characters of `s` from `j` on are white space and the one
/// before them is not, trimming the end leaves the first `j`.
proof fn lemma_trimmed_end(s: Seq<char>, j: int)
    requires
        0 <= j <= s.len(),
        forall|k: int| j <= k < s.len() ==> is_white_space(s[k]),
        0 < j ==> !is_white_space(s[j - 1]),
    ensures
        trimmed_end(s) == s.subrange(0, j),
    decreases s.len() - j,
{
    if j == s.len() {
        assert(s.subrange(0, j) =~= s);
    } else {
        assert(is_white_space(s[s.len() - 1]));
        let rest = s.drop_last();
        lemma_trimmed_end(rest, j);
        assert(rest.subrange(0, j) =~= s.subrange(0, j));
    }
}

/// Compiles `pattern` with `Regex::new` and runs `Regex::replace_all` on
/// `text`. The contract is stated for the one pattern and replacement that
/// the normalizer uses: the pattern is a class that matches any single
/// character outside `\w` and the comma, so replacing every match by
/// nothing leaves the other characters of `text`, in order. This is taken
/// from the documentation of the `regex` crate and not proved here.
#[verifier::external_body]
fn regex_replace_all(pattern: &str, text: &str, replacement: &str) -> (out: String)
    requires
        pattern@ == STRIP_PATTERN@,
        replacement@.len() == 0,
    ensures
        out@ == text@.filter(|c: char| c == ',' || is_word_char(c)),
{
    Regex::new(pattern).unwrap().replace_all(text, replacement).into_owned()
}

/// Calls `str::to_lowercase`, whose result depends on the string alone.
#[verifier::external_body]
fn to_lowercase(s: &str) -> (out: String)
    ensures
        out@ == lowercased(s@),
{
    s.to_lowercase()
}

/// Tells white space.
pub fn is_whitespace(c: char) -> (b: bool)
    ensures
        b == is_white_space(c),
{
    let code: u32 = c as u32;
    (0x09 <= code && code <= 0x0D) || code == 0x20 || code == 0x85 || code == 0xA0 || code
        == 0x1680 || (0x2000 <= code && code <= 0x200A) || code == 0x2028 || code == 0x2029
        || code == 0x202F || code == 0x205F || code == 0x3000
}

/// Splits `text` at its commas.
pub fn split_on_commas(text: &str) -> (pieces: Vec<String>)
    ensures
        pieces.deep_view() == comma_pieces(text@),
{
    let len: usize = text.unicode_len();
    let mut pieces: Vec<String> = Vec::new();
    let mut start: usize = 0;
    let mut i: usize = 0;
    assert(text@.subrange(0, 0) =~= Seq::<char>::empty());
    assert(pieces.deep_view().push(text@.subrange(0, 0)) =~= seq![Seq::<char>::empty()]);
    for c in it: text.chars()
        invariant
            len == text@.len(),
            it.seq() == text@,
            i == it.index(),
            start <= i <= len,
            comma_pieces(text@.subrange(0, i as int)) == pieces.deep_view().push(
                text@.subrange(start as int, i as int),
            ),
    {
        let ghost before = text@.subrange(0, i as int);
        let ghost upto = text@.subrange(0, i + 1);
        let ghost done = pieces.deep_view();
        assert(upto.drop_last() == before);
        assert(upto.last() == c);
        if c == ',' {
            let piece = text.substring_char(start, i).to_owned();
            pieces.push(piece);
            start = i + 1;
            assert(pieces.deep_view() =~= done.push(piece@));
            assert(text@.subrange(start as int, i + 1) =~= Seq::<char>::empty());
        } else {
            assert(text@.subrange(start as int, i + 1) == text@.subrange(start as int, i as int).push(c));
            assert(done.push(text@.subrange(start as int, i as int)).drop_last() == done);
        }
        i = i + 1;
    }
    assert(text@.subrange(0, i as int) == text@);
    let last = text.substring_char(start, len).to_owned();
    let ghost done = pieces.deep_view();
    pieces.push(last);
    assert(pieces.deep_view() =~= done.push(last@));
    pieces
}

/// Removes leading and trailing white space.
pub fn trim(s: &str) -> (out: &str)
    ensures
        out@ == trimmed(s@),
{
    let len: usize = s.unicode_len();
    let mut i: usize = 0;
    while i < len && is_whitespace(s.get_char(i))
        invariant
            len == s@.len(),
            i <= len,
            forall|k: int| 0 <= k < i ==> is_white_space(s@[k]),
        decreases len - i,
    {
        i = i + 1;
    }
    let mut j: usize = len;
    while j > i && is_whitespace(s.get_char(j - 1))
        invariant
            len == s@.len(),
            i <= j <= len,
            forall|k: int| j <= k < len ==> is_white_space(s@[k]),
        decreases j,
    {
        j = j - 1;
    }
    proof {
        let middle = s@.subrange(i as int, len as int);
        lemma_trimmed_start(s@, i as int);
        assert forall|k: int| j - i <= k < middle.len() implies is_white_space(middle[k]) by {
            assert(middle[k] == s@[k + i]);
        }
        lemma_trimmed_end(middle, j - i);
        assert(middle.subrange(0, j - i) =~= s@.subrange(i as int, j as int));
    }
    s.substring_char(i, j)
}

/// Cleans and splits a raw text field into its name tokens: every character
/// that is neither a word character nor a comma is removed, the rest is
/// lowercased and split at the commas, and each piece is trimmed. Empty
/// pieces are kept.
pub fn clean_split_text(text: &str) -> (tokens: Vec<String>)
    ensures
        tokens.deep_view() == normalized_tokens(text@),
        tokens.len() >= 1,
{
    proof {
        reveal_strlit("");
    }
    let cleaned = regex_replace_all(STRIP_PATTERN, text, "");
    let lowered = to_lowercase(cleaned.as_str());
    let pieces = split_on_commas(lowered.as_str());
    let mut tokens: Vec<String> = Vec::new();
    let mut k: usize = 0;
    while k < pieces.len()
        invariant
            k <= pieces.len(),
            tokens.len() == k,
            forall|m: int| 0 <= m < k ==> tokens[m]@ == trimmed(#[trigger] pieces[m]@),
        decreases pieces.len() - k,
    {
        let token = trim(pieces[k].as_str()).to_owned();
        tokens.push(token);
        k = k + 1;
    }
    proof {
        lemma_comma_pieces_rejoin(lowered@);
        assert(pieces.deep_view().len() == pieces.len());
        assert forall|m: int| 0 <= m < tokens.len() implies tokens.deep_view()[m]
            == normalized_tokens(text@)[m] by {
            assert(pieces.deep_view()[m] == pieces[m]@);
        }
        assert(tokens.deep_view() =~= normalized_tokens(text@));
    }
    tokens
}

} // verus!
