//! Character classes, and the rules that decide which texts are fit for a
//! corpus.

use vstd::prelude::*;

verus! {

/// Whether `c` is alphabetic or numeric in Unicode's sense.
pub uninterp spec fn alphanumeric(c: char) -> bool;

/// Whether `c` has Unicode's White_Space property, which these 25 code
/// points have.
pub open spec fn whitespace(c: char) -> bool {
    let u = c as u32;
    ||| 0x09 <= u <= 0x0D
    ||| u == 0x20
    ||| u == 0x85
    ||| u == 0xA0
    ||| u == 0x1680
    ||| 0x2000 <= u <= 0x200A
    ||| u == 0x2028
    ||| u == 0x2029
    ||| u == 0x202F
    ||| u == 0x205F
    ||| u == 0x3000
}

/// Relies on `char::is_alphanumeric`.
#[verifier::external_body]
fn is_alphanumeric(c: char) -> (r: bool)
    ensures
        r == alphanumeric(c),
{
    c.is_alphanumeric()
}

/// Whether `c` has Unicode's White_Space property.
pub fn is_whitespace(c: char) -> (r: bool)
    ensures
        r == whitespace(c),
{
    let u = c as u32;
    (0x09 <= u && u <= 0x0D) || u == 0x20 || u == 0x85 || u == 0xA0 || u == 0x1680 || (0x2000 <= u && u <= 0x200A)
        || u == 0x2028 || u == 0x2029 || u == 0x202F || u == 0x205F || u == 0x3000
}

/// Relies on `str::chars`, collected: the characters of `s` in order.
#[verifier::external_body]
pub(crate) fn chars_of(s: &str) -> (r: Vec<char>)
    ensures
        r@ == s@,
{
    s.chars().collect()
}

/// A character that is neither a word character (alphanumeric or `_`) nor
/// whitespace.
pub open spec fn symbol(c: char) -> bool {
    !(alphanumeric(c) || c == '_' || whitespace(c))
}

pub open spec fn count_alphanumeric(s: Seq<char>) -> nat
    decreases s.len(),
{
    if s.len() == 0 {
        0
    } else {
        count_alphanumeric(s.drop_last()) + if alphanumeric(s.last()) { 1nat } else { 0nat }
    }
}

pub open spec fn count_whitespace(s: Seq<char>) -> nat
    decreases s.len(),
{
    if s.len() == 0 {
        0
    } else {
        count_whitespace(s.drop_last()) + if whitespace(s.last()) { 1nat } else { 0nat }
    }
}

/// The number of plain spaces (U+0020) in `s`.
pub open spec fn count_spaces(s: Seq<char>) -> nat
    decreases s.len(),
{
    if s.len() == 0 {
        0
    } else {
        count_spaces(s.drop_last()) + if s.last() == ' ' { 1nat } else { 0nat }
    }
}

pub open spec fn count_symbols(s: Seq<char>) -> nat
    decreases s.len(),
{
    if s.len() == 0 {
        0
    } else {
        count_symbols(s.drop_last()) + if symbol(s.last()) { 1nat } else { 0nat }
    }
}

/// A text fit for a corpus: non-empty, with at least four whitespace
/// characters, and at least half of its characters alphanumeric.
pub open spec fn corpus_worthy(t: Seq<char>) -> bool {
    &&& t.len() > 0
    &&& count_whitespace(t) >= 4
    &&& 2 * count_alphanumeric(t) >= t.len()
}

/// A stored text that the maintenance sweep removes: it is empty, it splits
/// into fewer than four pieces at single spaces, or it splits into more
/// pieces at symbols than half its length.
pub open spec fn low_quality(t: Seq<char>) -> bool {
    ||| t.len() == 0
    ||| count_spaces(t) + 1 < 4
    ||| count_symbols(t) + 1 > t.len() / 2
}

/// The counts of alphanumeric, whitespace, space and symbol characters.
pub struct CharCounts {
    pub alphanumeric: usize,
    pub whitespace: usize,
    pub spaces: usize,
    pub symbols: usize,
}

/// Counts each character class of `chars` in one pass.
pub fn char_counts(chars: &Vec<char>) -> (r: CharCounts)
    ensures
        r.alphanumeric as nat == count_alphanumeric(chars@),
        r.whitespace as nat == count_whitespace(chars@),
        r.spaces as nat == count_spaces(chars@),
        r.symbols as nat == count_symbols(chars@),
        r.alphanumeric <= chars.len(),
{
    let mut r = CharCounts { alphanumeric: 0, whitespace: 0, spaces: 0, symbols: 0 };
    let mut i: usize = 0;
    while i < chars.len()
        invariant
            i <= chars.len(),
            r.alphanumeric as nat == count_alphanumeric(chars@.subrange(0, i as int)),
            r.whitespace as nat == count_whitespace(chars@.subrange(0, i as int)),
            r.spaces as nat == count_spaces(chars@.subrange(0, i as int)),
            r.symbols as nat == count_symbols(chars@.subrange(0, i as int)),
            r.alphanumeric <= i,
            r.whitespace <= i,
            r.spaces <= i,
            r.symbols <= i,
        decreases chars.len() - i,
    {
        let c = chars[i];
        let a = is_alphanumeric(c);
        let w = is_whitespace(c);
        if a {
            r.alphanumeric = r.alphanumeric + 1;
        }
        if w {
            r.whitespace = r.whitespace + 1;
        }
        if c == ' ' {
            r.spaces = r.spaces + 1;
        }
        if !(a || c == '_' || w) {
            r.symbols = r.symbols + 1;
        }
        proof {
            assert(chars@.subrange(0, i + 1).drop_last() =~= chars@.subrange(0, i as int));
        }
        i = i + 1;
    }
    proof {
        assert(chars@.subrange(0, i as int) =~= chars@);
    }
    r
}

/// Whether `text` is fit for a corpus.
pub fn is_corpus_worthy(text: &str) -> (r: bool)
    ensures
        r == corpus_worthy(text@),
{
    let chars = chars_of(text);
    let n = chars.len();
    let counts = char_counts(&chars);
    n > 0 && counts.whitespace >= 4 && counts.alphanumeric >= n - counts.alphanumeric
}

/// Whether an observed message goes into a corpus: never when an automated
/// account wrote it, else when its text is fit.
pub fn message_filter(author_is_bot: bool, content: &str) -> (r: bool)
    ensures
        r == (!author_is_bot && corpus_worthy(content@)),
{
    if author_is_bot {
        return false;
    }
    is_corpus_worthy(content)
}

/// Whether the maintenance sweep removes a stored `text`.
pub fn is_low_quality(text: &str) -> (r: bool)
    ensures
        r == low_quality(text@),
{
    let chars = chars_of(text);
    let n = chars.len();
    let counts = char_counts(&chars);
    n == 0 || counts.spaces < 3 || counts.symbols >= n / 2
}

} // verus!
