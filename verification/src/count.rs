//! The tallies of a word count: lines, words, bytes and characters of a
//! text.

use vstd::prelude::*;
use vstd::string::*;
use vstd::utf8::{decode_utf8, encode_utf8, valid_utf8};
use crate::text::{chars_of, decode_lossy, utf8_lossy};

verus! {

/// The tallies of one text.
#[derive(Debug, PartialEq)]
pub struct FileInfo {
    pub num_lines: usize,
    pub num_words: usize,
    pub num_bytes: usize,
    pub num_chars: usize,
}

/// `c` has the Unicode property White_Space.
pub uninterp spec fn is_white_space(c: char) -> bool;

/// `char::is_whitespace`. Trusted: it tells whether `c` has the Unicode
/// property White_Space.
#[verifier::external_body]
fn white_space(c: char) -> (b: bool)
    ensures
        b == is_white_space(c),
{
    c.is_whitespace()
}

/// A word starts at index `i`: a character that is no white space, at the
/// start of the text or after white space.
pub open spec fn starts_word(text: Seq<char>, i: int) -> bool {
    !is_white_space(text[i]) && (i == 0 || is_white_space(text[i - 1]))
}

/// A line ends at index `i`: at a line feed, or at the last character of
/// the text.
pub open spec fn ends_line(text: Seq<char>, i: int) -> bool {
    text[i] == '\n' || i == text.len() - 1
}

/// The number of words that start before index `upto`.
pub open spec fn words_before(text: Seq<char>, upto: int) -> nat
    decreases upto,
{
    if upto <= 0 {
        0
    } else {
        words_before(text, upto - 1) + if starts_word(text, upto - 1) {
            1nat
        } else {
            0nat
        }
    }
}

/// The number of lines that end before index `upto`.
pub open spec fn lines_before(text: Seq<char>, upto: int) -> nat
    decreases upto,
{
    if upto <= 0 {
        0
    } else {
        lines_before(text, upto - 1) + if ends_line(text, upto - 1) {
            1nat
        } else {
            0nat
        }
    }
}

/// `info` holds the tallies of `text`: its lines, each ended by a line feed
/// but perhaps the last; its words, the stretches between white space; the
/// bytes of its UTF-8 form; and its characters.
pub open spec fn tallies(info: FileInfo, text: Seq<char>) -> bool {
    &&& info.num_lines == lines_before(text, text.len() as int)
    &&& info.num_words == words_before(text, text.len() as int)
    &&& info.num_bytes == encode_utf8(text).len()
    &&& info.num_chars == text.len()
}

/// Counts the lines, words, bytes and characters of `text`.
pub fn count_text(text: &str) -> (info: FileInfo)
    ensures
        tallies(info, text@),
{
    let chars = chars_of(text);
    let n = chars.len();
    let mut num_lines: usize = 0;
    let mut num_words: usize = 0;
    let mut after_space = true;
    let mut i: usize = 0;
    while i < n
        invariant
            i <= n,
            n == chars.len(),
            chars@ == text@,
            num_lines == lines_before(text@, i as int),
            num_words == words_before(text@, i as int),
            num_lines <= i,
            num_words <= i,
            after_space == (i == 0 || is_white_space(text@[i - 1])),
        decreases n - i,
    {
        let c = chars[i];
        let space = white_space(c);
        if !space && after_space {
            num_words += 1;
        }
        if c == '\n' || i == n - 1 {
            num_lines += 1;
        }
        after_space = space;
        i += 1;
    }
    FileInfo { num_lines, num_words, num_bytes: text.as_bytes().len(), num_chars: n }
}

/// Counts the lines, words, bytes and characters of the text that `bytes`
/// hold. The bytes are read as UTF-8 with each ill-formed sequence replaced
/// by U+FFFD, and the tallies are those of the text so read: a replaced
/// sequence counts as one character of three bytes.
pub fn count(bytes: &[u8]) -> (info: FileInfo)
    ensures
        tallies(info, utf8_lossy(bytes@)),
        valid_utf8(bytes@) ==> tallies(info, decode_utf8(bytes@)),
{
    let text = decode_lossy(bytes);
    count_text(text.as_str())
}

} // verus!
