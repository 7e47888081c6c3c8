//! Text as sequences of characters: the conversions to and from bytes, and the
//! splitting, trimming and number reading that protocol heads need.

use vstd::prelude::*;
use vstd::utf8::{decode_utf8, encode_utf8, valid_utf8};

verus! {

/// Append one character: `String::push` leaves the string with that character
/// behind what it held.
pub assume_specification[ String::push ](s: &mut String, c: char)
    ensures
        final(s)@ == old(s)@.push(c),
;

/// What `String::from_utf8_lossy` makes of bytes that are not valid UTF-8.
pub uninterp spec fn lossy_chars(bytes: Seq<u8>) -> Seq<char>;

/// Bytes as text, with every invalid sequence replaced.
pub open spec fn text_of(bytes: Seq<u8>) -> Seq<char> {
    if valid_utf8(bytes) {
        decode_utf8(bytes)
    } else {
        lossy_chars(bytes)
    }
}

/// Bytes as text with every invalid sequence replaced:
/// `String::from_utf8_lossy`. Bytes that are valid UTF-8 are decoded as they
/// stand; of other bytes the result depends on the bytes alone. How an invalid
/// sequence is delimited and replaced is left to the name.
#[verifier::external_body]
pub(crate) fn lossy_text(bytes: &[u8]) -> (text: String)
    ensures
        text@ == if valid_utf8(bytes@) {
            decode_utf8(bytes@)
        } else {
            lossy_chars(bytes@)
        },
{
    String::from_utf8_lossy(bytes).into_owned()
}

/// Text that was encoded is read back as it was.
pub proof fn lemma_text_round_trip(s: Seq<char>)
    ensures
        text_of(encode_utf8(s)) == s,
{
    vstd::utf8::encode_utf8_valid_utf8(s);
    vstd::utf8::encode_utf8_decode_utf8(s);
}

/// How text is written as a Rust string literal.
pub uninterp spec fn literal(text: Seq<char>) -> Seq<char>;

/// Text as a Rust string literal, as `format!("{:?}", ..)` writes a `str`: the
/// result depends on the text alone. Which characters are escaped, and how, is
/// left to the name.
#[verifier::external_body]
pub(crate) fn quoted(text: &str) -> (r: String)
    ensures
        r@ == literal(text@),
{
    format!("{text:?}")
}

/// Bytes as text if they are valid UTF-8: `core::str::from_utf8` succeeds on
/// exactly those bytes, and the text is what they encode.
#[verifier::external_body]
pub(crate) fn utf8_text(bytes: &[u8]) -> (text: Option<String>)
    ensures
        text is Some <==> valid_utf8(bytes@),
        text matches Some(t) ==> t@ == decode_utf8(bytes@),
{
    match core::str::from_utf8(bytes) {
        Ok(text) => Some(text.to_string()),
        Err(_) => None,
    }
}

/// The characters of a string.
pub fn chars_of(s: &str) -> (chars: Vec<char>)
    ensures
        chars@ == s@,
{
    let mut chars: Vec<char> = Vec::new();
    for c in it: s.chars()
        invariant
            chars@ == it.seq().subrange(0, it.index()),
            it.seq() == s@,
    {
        chars.push(c);
        assert(chars@ =~= it.seq().subrange(0, it.index() + 1));
    }
    assert(chars@ =~= s@);
    chars
}

/// The string of some characters.
pub fn string_of(chars: &[char]) -> (s: String)
    ensures
        s@ == chars@,
{
    let mut s: String = String::new();
    let mut i: usize = 0;
    while i < chars.len()
        invariant
            i <= chars@.len(),
            s@ == chars@.subrange(0, i as int),
        decreases chars@.len() - i,
    {
        s.push(chars[i]);
        i = i + 1;
        assert(s@ =~= chars@.subrange(0, i as int));
    }
    assert(s@ =~= chars@);
    s
}

/// Lower case of an ASCII letter; any other character as it is.
pub open spec fn lower(c: char) -> char {
    if 'A' <= c && c <= 'Z' {
        (c as u32 + 32) as char
    } else {
        c
    }
}

/// Text with its ASCII letters in lower case.
pub open spec fn lowered(s: Seq<char>) -> Seq<char> {
    s.map_values(|c: char| lower(c))
}

fn lower_char(c: char) -> (r: char)
    ensures
        r == lower(c),
{
    if 'A' <= c && c <= 'Z' {
        (c as u8 + 32) as char
    } else {
        c
    }
}

/// Text with its ASCII letters in lower case.
pub fn to_lower(s: &[char]) -> (r: Vec<char>)
    ensures
        r@ == lowered(s@),
{
    let mut r: Vec<char> = Vec::new();
    let mut i: usize = 0;
    while i < s.len()
        invariant
            i <= s@.len(),
            r@ == lowered(s@.subrange(0, i as int)),
        decreases s@.len() - i,
    {
        r.push(lower_char(s[i]));
        i = i + 1;
        assert(r@ =~= lowered(s@.subrange(0, i as int)));
    }
    assert(s@.subrange(0, i as int) =~= s@);
    r
}

/// Whether a character is white space: those with the Unicode property
/// White_Space.
pub open spec fn is_white(c: char) -> bool {
    let n = c as u32;
    ||| 0x09 <= n <= 0x0d
    ||| n == 0x20
    ||| n == 0x85
    ||| n == 0xa0
    ||| n == 0x1680
    ||| 0x2000 <= n <= 0x200a
    ||| n == 0x2028
    ||| n == 0x2029
    ||| n == 0x202f
    ||| n == 0x205f
    ||| n == 0x3000
}

fn white(c: char) -> (r: bool)
    ensures
        r == is_white(c),
{
    let n: u32 = c as u32;
    (n >= 0x09 && n <= 0x0d) || n == 0x20 || n == 0x85 || n == 0xa0 || n == 0x1680 || (n >= 0x2000
        && n <= 0x200a) || n == 0x2028 || n == 0x2029 || n == 0x202f || n == 0x205f || n == 0x3000
}

/// How many of the first characters of `s` from `from` on are white.
pub open spec fn white_end(s: Seq<char>, from: int) -> int
    decreases s.len() - from,
{
    if 0 <= from < s.len() && is_white(s[from]) {
        white_end(s, from + 1)
    } else {
        from
    }
}

/// Where the word that starts at `from` ends.
pub open spec fn word_end(s: Seq<char>, from: int) -> int
    decreases s.len() - from,
{
    if 0 <= from < s.len() && !is_white(s[from]) {
        word_end(s, from + 1)
    } else {
        from
    }
}

proof fn lemma_ends(s: Seq<char>, from: int)
    requires
        0 <= from <= s.len(),
    ensures
        from <= white_end(s, from) <= s.len(),
        from <= word_end(s, from) <= s.len(),
        from < s.len() && !is_white(s[from]) ==> from < word_end(s, from),
    decreases s.len() - from,
{
    if from < s.len() {
        lemma_ends(s, from + 1);
    }
}

/// The words of `s` from `from` on: its runs of characters that are not white.
pub open spec fn words_from(s: Seq<char>, from: int) -> Seq<Seq<char>>
    decreases s.len() - from,
{
    let start = white_end(s, from);
    let end = word_end(s, start);
    if 0 <= from <= start < end <= s.len() {
        seq![s.subrange(start, end)] + words_from(s, end)
    } else {
        Seq::empty()
    }
}

/// The words of `s`.
pub open spec fn words(s: Seq<char>) -> Seq<Seq<char>> {
    words_from(s, 0)
}

/// Several texts.
pub open spec fn texts(v: Seq<Vec<char>>) -> Seq<Seq<char>> {
    v.map_values(|t: Vec<char>| t@)
}

/// A copy of the characters from `from` up to `to`.
pub fn piece(s: &[char], from: usize, to: usize) -> (r: Vec<char>)
    requires
        from <= to <= s@.len(),
    ensures
        r@ == s@.subrange(from as int, to as int),
{
    vstd::slice::slice_to_vec(vstd::slice::slice_subrange(s, from, to))
}

fn skip_white(s: &[char], from: usize) -> (end: usize)
    requires
        from <= s@.len(),
    ensures
        end == white_end(s@, from as int),
        from <= end <= s@.len(),
{
    let mut i: usize = from;
    while i < s.len() && white(s[i])
        invariant
            from <= i <= s@.len(),
            white_end(s@, from as int) == white_end(s@, i as int),
        decreases s@.len() - i,
    {
        i = i + 1;
    }
    i
}

fn skip_word(s: &[char], from: usize) -> (end: usize)
    requires
        from <= s@.len(),
    ensures
        end == word_end(s@, from as int),
        from <= end <= s@.len(),
{
    let mut i: usize = from;
    while i < s.len() && !white(s[i])
        invariant
            from <= i <= s@.len(),
            word_end(s@, from as int) == word_end(s@, i as int),
        decreases s@.len() - i,
    {
        i = i + 1;
    }
    i
}

/// The words of `s`.
pub fn split_words(s: &[char]) -> (r: Vec<Vec<char>>)
    ensures
        texts(r@) == words(s@),
{
    let mut r: Vec<Vec<char>> = Vec::new();
    let mut at: usize = 0;
    assert(texts(r@) + words_from(s@, 0) =~= words(s@));
    loop
        invariant
            at <= s@.len(),
            texts(r@) + words_from(s@, at as int) == words(s@),
        ensures
            texts(r@) == words(s@),
        decreases s@.len() - at,
    {
        let start: usize = skip_white(s, at);
        let end: usize = skip_word(s, start);
        proof {
            lemma_ends(s@, start as int);
        }
        if start == end {
            assert(texts(r@) + Seq::<Seq<char>>::empty() =~= texts(r@));
            break ;
        }
        let ghost before = texts(r@);
        let word: Vec<char> = piece(s, start, end);
        r.push(word);
        proof {
            assert(texts(r@) =~= before.push(word@));
            assert(before + (seq![word@] + words_from(s@, end as int)) =~= texts(r@)
                + words_from(s@, end as int));
        }
        at = end;
    }
    r
}

/// Where the white space at the end of `s` starts.
pub open spec fn white_tail(s: Seq<char>, to: int) -> int
    decreases to,
{
    if 0 < to <= s.len() && is_white(s[to - 1]) {
        white_tail(s, to - 1)
    } else {
        to
    }
}

/// `s` without the white space at both ends.
pub open spec fn trimmed(s: Seq<char>) -> Seq<char> {
    let start = white_end(s, 0);
    let end = white_tail(s, s.len() as int);
    if start < end {
        s.subrange(start, end)
    } else {
        Seq::empty()
    }
}

/// `s` without the white space at both ends.
pub fn trim(s: &[char]) -> (r: Vec<char>)
    ensures
        r@ == trimmed(s@),
{
    let start: usize = skip_white(s, 0);
    let mut end: usize = s.len();
    while end > 0 && white(s[end - 1])
        invariant
            end <= s@.len(),
            white_tail(s@, s@.len() as int) == white_tail(s@, end as int),
        decreases end,
    {
        end = end - 1;
    }
    if start < end {
        piece(s, start, end)
    } else {
        Vec::new()
    }
}

/// The first index of `c` in `s` from `from` on.
pub open spec fn find_char(s: Seq<char>, c: char, from: int) -> Option<int>
    decreases s.len() - from,
{
    if !(0 <= from < s.len()) {
        None
    } else if s[from] == c {
        Some(from)
    } else {
        find_char(s, c, from + 1)
    }
}

/// The first index of `c` in `s` from `from` on.
pub fn index_of(s: &[char], c: char, from: usize) -> (at: Option<usize>)
    requires
        from <= s@.len(),
    ensures
        match (at, find_char(s@, c, from as int)) {
            (Some(a), Some(b)) => a == b && from <= a < s.len(),
            (None, None) => true,
            _ => false,
        },
{
    let mut i: usize = from;
    while i < s.len()
        invariant
            from <= i <= s@.len(),
            find_char(s@, c, from as int) == find_char(s@, c, i as int),
        decreases s@.len() - i,
    {
        if s[i] == c {
            return Some(i);
        }
        i = i + 1;
    }
    None
}

/// The last index of `c` in `s` before `to`.
pub open spec fn rfind_char(s: Seq<char>, c: char, to: int) -> Option<int>
    decreases to,
{
    if !(0 < to <= s.len()) {
        None
    } else if s[to - 1] == c {
        Some(to - 1)
    } else {
        rfind_char(s, c, to - 1)
    }
}

/// The last index of `c` in `s`.
pub fn last_index_of(s: &[char], c: char) -> (at: Option<usize>)
    ensures
        match (at, rfind_char(s@, c, s@.len() as int)) {
            (Some(a), Some(b)) => a == b && a < s@.len(),
            (None, None) => true,
            _ => false,
        },
{
    let mut i: usize = s.len();
    while i > 0
        invariant
            i <= s@.len(),
            rfind_char(s@, c, s@.len() as int) == rfind_char(s@, c, i as int),
        decreases i,
    {
        if s[i - 1] == c {
            return Some(i - 1);
        }
        i = i - 1;
    }
    None
}

/// The pieces of `s` from `from` on between occurrences of `c`.
pub open spec fn pieces_from(s: Seq<char>, c: char, from: int) -> Seq<Seq<char>>
    decreases s.len() - from,
{
    match find_char(s, c, from) {
        Some(at) if from <= at < s.len() => seq![s.subrange(from, at)] + pieces_from(
            s,
            c,
            at + 1,
        ),
        _ => seq![s.subrange(from, s.len() as int)],
    }
}

/// The pieces of `s` between occurrences of `c`.
pub fn split_at_char(s: &[char], c: char) -> (r: Vec<Vec<char>>)
    ensures
        texts(r@) == pieces_from(s@, c, 0),
{
    let mut r: Vec<Vec<char>> = Vec::new();
    let mut from: usize = 0;
    let ghost whole = pieces_from(s@, c, 0);
    assert(texts(r@) + whole =~= whole);
    loop
        invariant_except_break
            texts(r@) + pieces_from(s@, c, from as int) == whole,
        invariant
            from <= s@.len(),
        ensures
            texts(r@) == whole,
        decreases s@.len() - from,
    {
        let ghost before = texts(r@);
        match index_of(s, c, from) {
            Some(at) => {
                let part: Vec<char> = piece(s, from, at);
                r.push(part);
                proof {
                    assert(texts(r@) =~= before.push(part@));
                    assert(before + (seq![part@] + pieces_from(s@, c, at + 1)) =~= texts(r@)
                        + pieces_from(s@, c, at + 1));
                }
                from = at + 1;
            },
            None => {
                let part: Vec<char> = piece(s, from, s.len());
                r.push(part);
                assert(texts(r@) =~= before + seq![part@]);
                break ;
            },
        }
    }
    r
}

/// The first index from `from` on at which CR LF stands.
pub open spec fn find_break(s: Seq<char>, from: int) -> Option<int>
    decreases s.len() - from,
{
    if !(0 <= from && from + 2 <= s.len()) {
        None
    } else if s[from] == '\r' && s[from + 1] == '\n' {
        Some(from)
    } else {
        find_break(s, from + 1)
    }
}

/// The lines of `s` from `from` on, which CR LF separates.
pub open spec fn lines_from(s: Seq<char>, from: int) -> Seq<Seq<char>>
    decreases s.len() - from,
{
    match find_break(s, from) {
        Some(at) if from <= at && at + 2 <= s.len() => seq![s.subrange(from, at)] + lines_from(
            s,
            at + 2,
        ),
        _ => seq![s.subrange(from, s.len() as int)],
    }
}

fn next_break(s: &[char], from: usize) -> (at: Option<usize>)
    requires
        from <= s@.len(),
    ensures
        match (at, find_break(s@, from as int)) {
            (Some(a), Some(b)) => a == b && from <= a && a + 2 <= s.len(),
            (None, None) => true,
            _ => false,
        },
{
    let mut i: usize = from;
    while i < s.len() && s.len() - i >= 2
        invariant
            from <= i <= s@.len(),
            find_break(s@, from as int) == find_break(s@, i as int),
        decreases s@.len() - i,
    {
        if s[i] == '\r' && s[i + 1] == '\n' {
            return Some(i);
        }
        i = i + 1;
    }
    None
}

/// The lines of `s`, which CR LF separates.
pub fn split_lines(s: &[char]) -> (r: Vec<Vec<char>>)
    ensures
        texts(r@) == lines_from(s@, 0),
        r@.len() > 0,
{
    let mut r: Vec<Vec<char>> = Vec::new();
    let mut from: usize = 0;
    let ghost whole = lines_from(s@, 0);
    assert(texts(r@) + whole =~= whole);
    loop
        invariant_except_break
            texts(r@) + lines_from(s@, from as int) == whole,
        invariant
            from <= s@.len(),
        ensures
            texts(r@) == whole,
            r@.len() > 0,
        decreases s@.len() - from,
    {
        let ghost before = texts(r@);
        match next_break(s, from) {
            Some(at) => {
                let part: Vec<char> = piece(s, from, at);
                r.push(part);
                proof {
                    assert(texts(r@) =~= before.push(part@));
                    assert(before + (seq![part@] + lines_from(s@, at + 2)) =~= texts(r@)
                        + lines_from(s@, at + 2));
                }
                from = at + 2;
            },
            None => {
                let part: Vec<char> = piece(s, from, s.len());
                r.push(part);
                assert(texts(r@) =~= before + seq![part@]);
                break ;
            },
        }
    }
    r
}

/// Whether two texts are the same.
pub fn same(a: &[char], b: &[char]) -> (r: bool)
    ensures
        r == (a@ == b@),
{
    if a.len() != b.len() {
        return false;
    }
    let mut i: usize = 0;
    while i < a.len()
        invariant
            i <= a@.len(),
            a@.len() == b@.len(),
            forall|k: int| 0 <= k < i ==> a@[k] == b@[k],
        decreases a@.len() - i,
    {
        if a[i] != b[i] {
            return false;
        }
        i = i + 1;
    }
    assert(a@ =~= b@);
    true
}

/// Whether `a` is the text of `s`.
pub fn is_text(a: &[char], s: &str) -> (r: bool)
    ensures
        r == (a@ == s@),
{
    let chars: Vec<char> = chars_of(s);
    same(a, chars.as_slice())
}

/// Whether `a` is the text of `s` up to the case of ASCII letters.
pub fn is_text_ignoring_case(a: &[char], s: &str) -> (r: bool)
    ensures
        r == (lowered(a@) == lowered(s@)),
{
    let left: Vec<char> = to_lower(a);
    let chars: Vec<char> = chars_of(s);
    let right: Vec<char> = to_lower(chars.as_slice());
    same(left.as_slice(), right.as_slice())
}

/// Whether `s` starts with `prefix`.
pub open spec fn has_prefix(s: Seq<char>, prefix: Seq<char>) -> bool {
    prefix.len() <= s.len() && s.subrange(0, prefix.len() as int) == prefix
}

/// Whether `s` starts with `prefix`; if so, the length of the prefix.
pub fn prefix_len(s: &[char], prefix: &str) -> (len: Option<usize>)
    ensures
        len is Some <==> has_prefix(s@, prefix@),
        len matches Some(n) ==> n == prefix@.len() && n <= s@.len(),
{
    let chars: Vec<char> = chars_of(prefix);
    if chars.len() > s.len() {
        return None;
    }
    if same(vstd::slice::slice_subrange(s, 0, chars.len()), chars.as_slice()) {
        Some(chars.len())
    } else {
        None
    }
}

/// Whether `pat` stands in `s` at `at`.
pub open spec fn stands_at(s: Seq<char>, pat: Seq<char>, at: int) -> bool {
    0 <= at && at + pat.len() <= s.len() && s.subrange(at, at + pat.len()) == pat
}

/// Whether `pat` stands anywhere in `s`.
pub open spec fn holds_text(s: Seq<char>, pat: Seq<char>) -> bool {
    exists|at: int| stands_at(s, pat, at)
}

/// Whether `pat` stands anywhere in `s`.
pub fn contains_text(s: &[char], pat: &str) -> (found: bool)
    ensures
        found == holds_text(s@, pat@),
{
    let chars: Vec<char> = chars_of(pat);
    let n: usize = chars.len();
    if n > s.len() {
        return false;
    }
    let mut i: usize = 0;
    while i <= s.len() - n
        invariant
            n == pat@.len(),
            chars@ == pat@,
            n <= s@.len(),
            i <= s@.len() - n + 1,
            forall|at: int| 0 <= at < i ==> !#[trigger] stands_at(s@, pat@, at),
        decreases s@.len() - n + 1 - i,
    {
        if same(vstd::slice::slice_subrange(s, i, i + n), chars.as_slice()) {
            assert(stands_at(s@, pat@, i as int));
            return true;
        }
        if i == s.len() - n {
            return false;
        }
        i = i + 1;
    }
    false
}

/// A line without a carriage return at its end.
pub open spec fn without_cr(s: Seq<char>) -> Seq<char> {
    if s.len() > 0 && s.last() == '\r' {
        s.drop_last()
    } else {
        s
    }
}

/// The lines of `s`: its pieces between line feeds, each without a carriage
/// return at its end, and without an empty piece at the end of all.
pub open spec fn plain_lines(s: Seq<char>) -> Seq<Seq<char>> {
    let pieces = pieces_from(s, '\n', 0);
    let kept = if pieces.last().len() == 0 {
        pieces.drop_last()
    } else {
        pieces
    };
    kept.map_values(|line: Seq<char>| without_cr(line))
}

/// The lines of `s`.
pub fn split_plain_lines(s: &[char]) -> (r: Vec<Vec<char>>)
    ensures
        texts(r@) == plain_lines(s@),
{
    let mut pieces: Vec<Vec<char>> = split_at_char(s, '\n');
    let ghost all = texts(pieces@);
    proof {
        assert(all == pieces_from(s@, '\n', 0));
        assert(all.len() > 0);
        assert(all.last() == pieces@[pieces@.len() - 1]@);
    }
    let last: usize = pieces.len() - 1;
    if pieces[last].len() == 0 {
        pieces.pop();
        assert(texts(pieces@) =~= all.drop_last());
    }
    let ghost kept = texts(pieces@);
    let mut r: Vec<Vec<char>> = Vec::new();
    let mut i: usize = 0;
    while i < pieces.len()
        invariant
            i <= pieces@.len(),
            kept == texts(pieces@),
            texts(r@) == kept.subrange(0, i as int).map_values(|l: Seq<char>| without_cr(l)),
        decreases pieces@.len() - i,
    {
        let n: usize = pieces[i].len();
        let ghost before = texts(r@);
        assert(kept[i as int] == pieces@[i as int]@);
        let line: Vec<char> = if n > 0 && pieces[i][n - 1] == '\r' {
            piece(pieces[i].as_slice(), 0, n - 1)
        } else {
            piece(pieces[i].as_slice(), 0, n)
        };
        assert(line@ =~= without_cr(kept[i as int]));
        r.push(line);
        i = i + 1;
        proof {
            assert(texts(r@) =~= before.push(line@));
            assert(texts(r@) =~= kept.subrange(0, i as int).map_values(
                |l: Seq<char>| without_cr(l),
            ));
        }
    }
    assert(kept.subrange(0, i as int) =~= kept);
    r
}

/// The value of a digit in some radix up to 16.
pub open spec fn digit_value(c: char, radix: nat) -> Option<nat> {
    let n = c as u32;
    let v: nat = if 48 <= n <= 57 {
        (n - 48) as nat
    } else if 65 <= n <= 70 {
        (n - 55) as nat
    } else if 97 <= n <= 102 {
        (n - 87) as nat
    } else {
        16
    };
    if v < radix {
        Some(v)
    } else {
        None
    }
}

/// The number that digits spell, if they all are digits.
pub open spec fn digits_value(s: Seq<char>, radix: nat) -> Option<nat>
    decreases s.len(),
{
    if s.len() == 0 {
        Some(0)
    } else {
        match (digits_value(s.drop_last(), radix), digit_value(s.last(), radix)) {
            (Some(head), Some(d)) => Some(head * radix + d),
            _ => None,
        }
    }
}

/// The number that `s` spells: digits behind an optional plus sign, at most
/// `max`.
pub open spec fn number(s: Seq<char>, radix: nat, max: nat) -> Option<nat> {
    let digits = if s.len() > 0 && s[0] == '+' {
        s.drop_first()
    } else {
        s
    };
    if digits.len() == 0 {
        None
    } else {
        match digits_value(digits, radix) {
            Some(v) if v <= max => Some(v),
            _ => None,
        }
    }
}

fn digit(c: char, radix: u64) -> (d: Option<u64>)
    requires
        radix <= 16,
    ensures
        match (d, digit_value(c, radix as nat)) {
            (Some(a), Some(b)) => a == b && a < radix,
            (None, None) => true,
            _ => false,
        },
{
    let n: u32 = c as u32;
    let v: u64 = if n >= 48 && n <= 57 {
        (n - 48) as u64
    } else if n >= 65 && n <= 70 {
        (n - 55) as u64
    } else if n >= 97 && n <= 102 {
        (n - 87) as u64
    } else {
        16
    };
    if v < radix {
        Some(v)
    } else {
        None
    }
}

proof fn lemma_digits_prefix(s: Seq<char>, radix: nat, m: int, n: int)
    requires
        0 <= m <= n <= s.len(),
        radix >= 1,
    ensures
        digits_value(s.subrange(0, m), radix) is None ==> digits_value(
            s.subrange(0, n),
            radix,
        ) is None,
        digits_value(s.subrange(0, n), radix) matches Some(b) ==> (digits_value(
            s.subrange(0, m),
            radix,
        ) matches Some(a) && a <= b),
    decreases n,
{
    if m < n {
        lemma_digits_prefix(s, radix, m, n - 1);
        assert(s.subrange(0, n).drop_last() =~= s.subrange(0, n - 1));
        if let Some(b) = digits_value(s.subrange(0, n), radix) {
            let head = digits_value(s.subrange(0, n - 1), radix)->0;
            assert(head <= head * radix) by (nonlinear_arith)
                requires
                    radix >= 1,
            ;
        }
    }
}

/// The number that `s` spells: digits behind an optional plus sign, at most
/// `max`.
pub fn read_number(s: &[char], radix: u64, max: u64) -> (v: Option<u64>)
    requires
        2 <= radix <= 16,
    ensures
        match (v, number(s@, radix as nat, max as nat)) {
            (Some(a), Some(b)) => a == b,
            (None, None) => true,
            _ => false,
        },
{
    let start: usize = if s.len() > 0 && s[0] == '+' {
        1
    } else {
        0
    };
    let digits: &[char] = vstd::slice::slice_subrange(s, start, s.len());
    proof {
        if start == 1 {
            assert(digits@ =~= s@.drop_first());
        } else {
            assert(digits@ =~= s@);
        }
    }
    if digits.len() == 0 {
        return None;
    }
    let mut acc: u64 = 0;
    let mut i: usize = 0;
    assert(digits@.subrange(0, 0) =~= Seq::<char>::empty());
    while i < digits.len()
        invariant
            i <= digits@.len(),
            2 <= radix <= 16,
            acc <= max,
            digits_value(digits@.subrange(0, i as int), radix as nat) == Some(acc as nat),
            number(s@, radix as nat, max as nat) == (match digits_value(digits@, radix as nat) {
                Some(v) if v <= max => Some(v),
                _ => None,
            }),
        decreases digits@.len() - i,
    {
        proof {
            lemma_digits_prefix(digits@, radix as nat, i + 1, digits@.len() as int);
            assert(digits@.subrange(0, digits@.len() as int) =~= digits@);
            assert(digits@.subrange(0, i + 1).drop_last() =~= digits@.subrange(0, i as int));
        }
        let d: u64 = match digit(digits[i], radix) {
            Some(d) => d,
            None => {
                return None;
            },
        };
        assert(0 <= acc as int * radix as int <= u64::MAX * 16) by (nonlinear_arith)
            requires
                acc <= u64::MAX,
                radix <= 16,
        ;
        let next: u128 = acc as u128 * radix as u128 + d as u128;
        if next > max as u128 {
            return None;
        }
        acc = next as u64;
        i = i + 1;
    }
    assert(digits@.subrange(0, i as int) =~= digits@);
    Some(acc)
}

} // verus!
