use vstd::prelude::*;
use vstd::string::*;
use crate::text::{decimal, digit_char, push_char};

verus! {

// ---------------------------------------------------------------------------
// Words
// ---------------------------------------------------------------------------

/// White space as Unicode defines it (the `White_Space` property), which is
/// what separates the words of a line.
pub open spec fn is_white(c: char) -> bool {
    let u = c as u32;
    ||| 0x9 <= u <= 0xd
    ||| u == 0x20
    ||| u == 0x85
    ||| u == 0xa0
    ||| u == 0x1680
    ||| 0x2000 <= u <= 0x200a
    ||| u == 0x2028
    ||| u == 0x2029
    ||| u == 0x202f
    ||| u == 0x205f
    ||| u == 0x3000
}

/// Where the word that starts at position `i` of `s` ends.
pub open spec fn word_end(s: Seq<char>, i: nat) -> nat
    decreases s.len() - i,
{
    if i >= s.len() || is_white(s[i as int]) {
        i
    } else {
        word_end(s, i + 1)
    }
}

/// A word ends no earlier than it starts, and no later than the text.
pub proof fn lemma_word_end(s: Seq<char>, i: nat)
    ensures
        i <= word_end(s, i),
        i <= s.len() ==> word_end(s, i) <= s.len(),
        i < s.len() && !is_white(s[i as int]) ==> i < word_end(s, i),
    decreases s.len() - i,
{
    if i < s.len() && !is_white(s[i as int]) {
        lemma_word_end(s, i + 1);
    }
}

/// The words of `s` from position `i` on: its maximal runs of characters
/// that are not white space, in order.
pub open spec fn words_from(s: Seq<char>, i: nat) -> Seq<Seq<char>>
    decreases s.len() - i,
{
    if i >= s.len() {
        Seq::empty()
    } else if is_white(s[i as int]) {
        words_from(s, i + 1)
    } else {
        let e = word_end(s, i);
        proof {
            lemma_word_end(s, i);
        }
        seq![s.subrange(i as int, e as int)] + words_from(s, e)
    }
}

/// A run of characters that are not white space, from `i` up to a white
/// character or the end, is one word.
proof fn lemma_word_end_at(s: Seq<char>, i: nat, j: nat)
    requires
        i <= j <= s.len(),
        forall|k: int| i <= k < j ==> !is_white(#[trigger] s[k]),
        j == s.len() || is_white(s[j as int]),
    ensures
        word_end(s, i) == j,
    decreases j - i,
{
    if i < j {
        lemma_word_end_at(s, i + 1, j);
    }
}

/// White space before position `j` adds no word.
proof fn lemma_words_skip_white(s: Seq<char>, i: nat, j: nat)
    requires
        i <= j <= s.len(),
        forall|k: int| i <= k < j ==> is_white(#[trigger] s[k]),
    ensures
        words_from(s, i) == words_from(s, j),
    decreases j - i,
{
    if i < j {
        lemma_words_skip_white(s, i + 1, j);
    }
}

/// Two runs of characters that are not white space, with white space
/// between them, are read as exactly those two words; white space alone
/// holds no word.
pub proof fn lemma_two_words(first: Seq<char>, gap: Seq<char>, second: Seq<char>)
    requires
        first.len() > 0,
        gap.len() > 0,
        second.len() > 0,
        forall|k: int| 0 <= k < first.len() ==> !is_white(#[trigger] first[k]),
        forall|k: int| 0 <= k < gap.len() ==> is_white(#[trigger] gap[k]),
        forall|k: int| 0 <= k < second.len() ==> !is_white(#[trigger] second[k]),
    ensures
        words(first + gap + second) == seq![first, second],
        words(gap) == Seq::<Seq<char>>::empty(),
{
    let s = first + gap + second;
    let a = first.len();
    let b = a + gap.len();
    let n = s.len();
    assert forall|k: int| 0 <= k < a implies !is_white(#[trigger] s[k]) by {
        assert(s[k] == first[k]);
    }
    assert(s[a as int] == gap[0]);
    lemma_word_end_at(s, 0, a);
    assert forall|k: int| a <= k < b implies is_white(#[trigger] s[k]) by {
        assert(s[k] == gap[k - a]);
    }
    lemma_words_skip_white(s, a, b);
    assert forall|k: int| b <= k < n implies !is_white(#[trigger] s[k]) by {
        assert(s[k] == second[k - b]);
    }
    lemma_word_end_at(s, b, n);
    assert(!is_white(s[0]));
    assert(!is_white(s[b as int]));
    assert(s.subrange(0, a as int) =~= first);
    assert(s.subrange(b as int, n as int) =~= second);
    assert(words_from(s, n) == Seq::<Seq<char>>::empty());
    assert(words_from(s, b) == seq![second] + Seq::<Seq<char>>::empty());
    assert(words_from(s, 0) == seq![first] + words_from(s, a));
    assert(words(s) =~= seq![first, second]);
    lemma_words_skip_white(gap, 0, gap.len());
}

/// The words of `s`.
pub open spec fn words(s: Seq<char>) -> Seq<Seq<char>> {
    words_from(s, 0)
}

/// The characters of `s`, one by one.
fn chars_of(s: &str) -> (r: Vec<char>)
    ensures
        r@ == s@,
{
    let n = s.unicode_len();
    let mut r: Vec<char> = Vec::new();
    for i in 0..n
        invariant
            n == s@.len(),
            r@ == s@.take(i as int),
    {
        r.push(s.get_char(i));
        assert(r@ =~= s@.take(i + 1));
    }
    assert(r@ =~= s@);
    r
}

/// Whether `c` is white space.
fn white(c: char) -> (r: bool)
    ensures
        r == is_white(c),
{
    let u = c as u32;
    (0x9 <= u && u <= 0xd) || u == 0x20 || u == 0x85 || u == 0xa0 || u == 0x1680 || (0x2000 <= u && u
        <= 0x200a) || u == 0x2028 || u == 0x2029 || u == 0x202f || u == 0x205f || u == 0x3000
}

/// The words of `chars`, as the characters of each.
fn words_of(chars: &Vec<char>) -> (r: Vec<Vec<char>>)
    ensures
        r@.map_values(|w: Vec<char>| w@) == words(chars@),
{
    let n = chars.len();
    let mut r: Vec<Vec<char>> = Vec::new();
    let mut i: usize = 0;
    while i < n
        invariant
            n == chars@.len(),
            i <= n,
            r@.map_values(|w: Vec<char>| w@) + words_from(chars@, i as nat) == words(chars@),
        decreases n - i,
    {
        if white(chars[i]) {
            i = i + 1;
        } else {
            let mut word: Vec<char> = Vec::new();
            let mut j: usize = i;
            while j < n && !white(chars[j])
                invariant
                    n == chars@.len(),
                    i <= j <= n,
                    word@ == chars@.subrange(i as int, j as int),
                    word_end(chars@, i as nat) == word_end(chars@, j as nat),
                decreases n - j,
            {
                word.push(chars[j]);
                j = j + 1;
                assert(word@ =~= chars@.subrange(i as int, j as int));
            }
            assert(word_end(chars@, j as nat) == j);
            let ghost before = r@.map_values(|w: Vec<char>| w@);
            r.push(word);
            assert(r@.map_values(|w: Vec<char>| w@) =~= before.push(chars@.subrange(i as int, j as int)));
            assert(words_from(chars@, i as nat) == seq![chars@.subrange(i as int, j as int)] + words_from(chars@, j as nat));
            assert(before + words_from(chars@, i as nat) =~= r@.map_values(|w: Vec<char>| w@) + words_from(chars@, j as nat));
            i = j;
        }
    }
    assert(r@.map_values(|w: Vec<char>| w@) =~= words(chars@));
    r
}

/// The text of the characters `w`.
fn text_of(w: &Vec<char>) -> (s: String)
    ensures
        s@ == w@,
{
    let mut s = String::new();
    for i in 0..w.len()
        invariant
            s@ == w@.take(i as int),
    {
        push_char(&mut s, w[i]);
        assert(s@ =~= w@.take(i + 1));
    }
    assert(s@ =~= w@);
    s
}

// ---------------------------------------------------------------------------
// Whole numbers
// ---------------------------------------------------------------------------

/// `c` is one of the digits 0 to 9.
pub open spec fn is_digit(c: char) -> bool {
    '0' <= c <= '9'
}

/// The value of the decimal digits `d`.
pub open spec fn digits_value(d: Seq<char>) -> int
    decreases d.len(),
{
    if d.len() == 0 {
        0
    } else {
        10 * digits_value(d.drop_last()) + (d.last() as int - '0' as int)
    }
}

/// Every character of `d` is a digit.
pub open spec fn all_digits(d: Seq<char>) -> bool {
    forall|i: int| 0 <= i < d.len() ==> is_digit(#[trigger] d[i])
}

/// The value of a signed eight-bit number written in decimal: an optional
/// `+` or `-`, then one or more digits, with a value from -128 to 127.
pub open spec fn i8_text(w: Seq<char>) -> Option<i8> {
    let negative = w.len() > 0 && w[0] == '-';
    let digits = if w.len() > 0 && (w[0] == '-' || w[0] == '+') { w.drop_first() } else { w };
    let value = if negative { -digits_value(digits) } else { digits_value(digits) };
    if digits.len() > 0 && all_digits(digits) && -128 <= value <= 127 {
        Some(value as i8)
    } else {
        None
    }
}

/// A number written in decimal reads back as itself: the text is one or
/// more digits, whose value is the number, and it starts with `0` only for
/// the number zero.
pub proof fn lemma_decimal_reads_back(n: nat)
    ensures
        decimal(n).len() > 0,
        all_digits(decimal(n)),
        digits_value(decimal(n)) == n,
        decimal(n)[0] == '0' <==> n == 0,
    decreases n,
{
    let d = (n % 10) as nat;
    assert(digit_char(d) as int == d + 48);
    if n < 10 {
        assert(decimal(n) == seq![digit_char(n)]);
        assert(seq![digit_char(n)].drop_last() =~= Seq::<char>::empty());
        assert(d == n);
        assert(digits_value(Seq::<char>::empty()) == 0);
        assert(digits_value(decimal(n)) == 10 * digits_value(Seq::<char>::empty()) + (digit_char(n) as int - '0' as int));
    } else {
        lemma_decimal_reads_back(n / 10);
        let prev = decimal(n / 10);
        assert(decimal(n) == prev.push(digit_char(d)));
        assert(prev.push(digit_char(d)).drop_last() =~= prev);
        assert(decimal(n).last() == digit_char(d));
        assert(n == 10 * (n / 10) + d);
        assert(digits_value(decimal(n)) == 10 * digits_value(prev) + (digit_char(d) as int - '0' as int));
        assert(decimal(n)[0] == prev[0]);
        assert forall|i: int| 0 <= i < decimal(n).len() implies is_digit(#[trigger] decimal(n)[i]) by {
            if i < prev.len() {
                assert(decimal(n)[i] == prev[i]);
            }
        }
    }
}

/// A number from -128 to 127 written in decimal, with a leading `-` when it
/// is negative and optionally a leading `+` when it is not, reads back as
/// itself.
pub proof fn lemma_i8_text_reads_decimal(n: int)
    requires
        -128 <= n <= 127,
    ensures
        n >= 0 ==> i8_text(decimal(n as nat)) == Some(n as i8),
        n >= 0 ==> i8_text(seq!['+'] + decimal(n as nat)) == Some(n as i8),
        n < 0 ==> i8_text(seq!['-'] + decimal((-n) as nat)) == Some(n as i8),
{
    let a = if n >= 0 { n as nat } else { (-n) as nat };
    lemma_decimal_reads_back(a);
    let d = decimal(a);
    assert(d[0] != '-' && d[0] != '+');
    assert((seq!['+'] + d).drop_first() =~= d);
    assert((seq!['-'] + d).drop_first() =~= d);
}

/// Digits have a value of at least zero.
proof fn lemma_digits_value_nonneg(d: Seq<char>)
    requires
        forall|i: int| 0 <= i < d.len() ==> is_digit(#[trigger] d[i]),
    ensures
        digits_value(d) >= 0,
    decreases d.len(),
{
    if d.len() > 0 {
        assert forall|i: int| 0 <= i < d.drop_last().len() implies is_digit(#[trigger] d.drop_last()[i]) by {
            assert(d.drop_last()[i] == d[i]);
        }
        lemma_digits_value_nonneg(d.drop_last());
        assert(is_digit(d[d.len() - 1]));
    }
}

/// Reads a signed eight-bit number written in decimal.
fn parse_i8(w: &Vec<char>) -> (r: Option<i8>)
    ensures
        r == i8_text(w@),
{
    let n = w.len();
    let mut start: usize = 0;
    let mut negative = false;
    if n > 0 && (w[0] == '-' || w[0] == '+') {
        negative = w[0] == '-';
        start = 1;
    }
    let ghost digits = if w@.len() > 0 && (w@[0] == '-' || w@[0] == '+') { w@.drop_first() } else { w@ };
    assert(digits =~= w@.skip(start as int));
    if start == n {
        return None;
    }
    // the value, capped at 1000 so that long numbers cannot overflow
    let mut value: u32 = 0;
    let mut i = start;
    while i < n
        invariant
            start <= i <= n,
            n == w@.len(),
            digits =~= w@.skip(start as int),
            digits == (if w@.len() > 0 && (w@[0] == '-' || w@[0] == '+') { w@.drop_first() } else { w@ }),
            negative == (w@.len() > 0 && w@[0] == '-'),
            forall|k: int| start <= k < i ==> is_digit(#[trigger] w@[k]),
            value as int == if digits_value(w@.subrange(start as int, i as int)) < 1000 {
                digits_value(w@.subrange(start as int, i as int))
            } else {
                1000
            },
        decreases n - i,
    {
        let c = w[i];
        if !('0' <= c && c <= '9') {
            proof {
                assert(digits[i - start] == c);
                assert(!is_digit(digits[i - start]));
                assert(!all_digits(digits));
            }
            return None;
        }
        let d: u32 = (c as u32) - ('0' as u32);
        proof {
            let prefix = w@.subrange(start as int, i as int);
            let next = w@.subrange(start as int, i + 1);
            assert(next.drop_last() =~= prefix);
            assert forall|k: int| 0 <= k < prefix.len() implies is_digit(#[trigger] prefix[k]) by {
                assert(prefix[k] == w@[start + k]);
            }
            lemma_digits_value_nonneg(prefix);
            assert(digits_value(next) == 10 * digits_value(prefix) + d);
        }
        value = if value >= 100 { 1000 } else {
            let v = 10 * value + d;
            if v < 1000 { v } else { 1000 }
        };
        i = i + 1;
    }
    proof {
        assert(w@.subrange(start as int, n as int) =~= digits);
        assert forall|k: int| 0 <= k < digits.len() implies is_digit(#[trigger] digits[k]) by {
            assert(digits[k] == w@[start + k]);
        }
    }
    if negative {
        if value <= 128 {
            let v: i16 = -(value as i16);
            Some(v as i8)
        } else {
            None
        }
    } else {
        if value <= 127 {
            Some(value as i8)
        } else {
            None
        }
    }
}

// ---------------------------------------------------------------------------
// The lines of the statistics and keyboard files
// ---------------------------------------------------------------------------

/// Why a line could not be read.
pub enum LineError {
    /// The line has no word at this position (counted from zero).
    MissingWord(usize),
    /// The word at this position has too few characters.
    ShortWord(usize),
    /// The word at this position is not a number of the expected kind.
    BadNumber(usize),
}

/// What a line of the letter statistics says: the first character of its
/// first word, and its second word (the frequency, as text).
pub open spec fn letter_line(line: Seq<char>) -> Result<(char, Seq<char>), LineError> {
    let ws = words(line);
    if ws.len() < 1 {
        Err(LineError::MissingWord(0))
    } else if ws.len() < 2 {
        Err(LineError::MissingWord(1))
    } else {
        Ok((ws[0][0], ws[1]))
    }
}

/// What a line of the bigram statistics says: the first two characters of
/// its first word, and its second word (the frequency, as text).
pub open spec fn bigram_line(line: Seq<char>) -> Result<((char, char), Seq<char>), LineError> {
    let ws = words(line);
    if ws.len() < 1 {
        Err(LineError::MissingWord(0))
    } else if ws[0].len() < 2 {
        Err(LineError::ShortWord(0))
    } else if ws.len() < 2 {
        Err(LineError::MissingWord(1))
    } else {
        Ok(((ws[0][0], ws[0][1]), ws[1]))
    }
}

/// A letter line of two words, the letter's word and the frequency, gives
/// the first character of the first word and the second word; a bigram line
/// gives the first two characters of its first word, and refuses a first
/// word of one character.
pub proof fn lemma_statistics_lines(first: Seq<char>, gap: Seq<char>, second: Seq<char>)
    requires
        first.len() > 0,
        gap.len() > 0,
        second.len() > 0,
        forall|k: int| 0 <= k < first.len() ==> !is_white(#[trigger] first[k]),
        forall|k: int| 0 <= k < gap.len() ==> is_white(#[trigger] gap[k]),
        forall|k: int| 0 <= k < second.len() ==> !is_white(#[trigger] second[k]),
    ensures
        letter_line(first + gap + second) == Ok::<(char, Seq<char>), LineError>((first[0], second)),
        first.len() >= 2 ==> bigram_line(first + gap + second) == Ok::<((char, char), Seq<char>), LineError>(
            ((first[0], first[1]), second),
        ),
        first.len() == 1 ==> bigram_line(first + gap + second) == Err::<((char, char), Seq<char>), LineError>(
            LineError::ShortWord(0),
        ),
        letter_line(gap) == Err::<(char, Seq<char>), LineError>(LineError::MissingWord(0)),
{
    lemma_two_words(first, gap, second);
}

/// The description of one key: its name, its coordinates and its effort as
/// text, and the finger that types it.
pub struct KeyFields {
    pub name: String,
    pub x: String,
    pub y: String,
    pub finger: i8,
    pub effort: String,
}

/// What a line of the keyboard file says.  A line that starts with `#` is
/// a comment; any other line lists a key's name, x and y coordinates,
/// finger (a signed eight-bit number) and effort, as its first five words.
pub open spec fn key_line(line: Seq<char>) -> Result<Option<(Seq<char>, Seq<char>, Seq<char>, i8, Seq<char>)>, LineError> {
    let ws = words(line);
    if line.len() > 0 && line[0] == '#' {
        Ok(None)
    } else if ws.len() < 1 {
        Err(LineError::MissingWord(0))
    } else if ws.len() < 2 {
        Err(LineError::MissingWord(1))
    } else if ws.len() < 3 {
        Err(LineError::MissingWord(2))
    } else if ws.len() < 4 {
        Err(LineError::MissingWord(3))
    } else if i8_text(ws[3]) is None {
        Err(LineError::BadNumber(3))
    } else if ws.len() < 5 {
        Err(LineError::MissingWord(4))
    } else {
        Ok(Some((ws[0], ws[1], ws[2], i8_text(ws[3])->0, ws[4])))
    }
}

/// Every word has at least one character.
proof fn lemma_words_not_empty(s: Seq<char>, i: nat)
    ensures
        forall|k: int| 0 <= k < words_from(s, i).len() ==> #[trigger] words_from(s, i)[k].len() > 0,
    decreases s.len() - i,
{
    if i < s.len() {
        if is_white(s[i as int]) {
            lemma_words_not_empty(s, i + 1);
            assert(words_from(s, i) == words_from(s, i + 1));
        } else {
            let e = word_end(s, i);
            lemma_word_end(s, i);
            lemma_words_not_empty(s, e);
            assert(words_from(s, i) == seq![s.subrange(i as int, e as int)] + words_from(s, e));
            assert forall|k: int| 0 <= k < words_from(s, i).len() implies #[trigger] words_from(s, i)[k].len() > 0 by {
                if k > 0 {
                    assert(words_from(s, i)[k] == words_from(s, e)[k - 1]);
                } else {
                    assert(words_from(s, i)[0] == s.subrange(i as int, e as int));
                }
            }
        }
    }
}

/// Reads a line of the letter statistics.
pub fn parse_letter_line(line: &str) -> (r: Result<(char, String), LineError>)
    ensures
        match r {
            Ok((c, freq)) => letter_line(line@) == Ok::<(char, Seq<char>), LineError>((c, freq@)),
            Err(e) => letter_line(line@) == Err::<(char, Seq<char>), LineError>(e),
        },
{
    let chars = chars_of(line);
    let ws = words_of(&chars);
    proof {
        lemma_words_not_empty(chars@, 0);
        assert(ws@.len() == words(line@).len());
    }
    if ws.len() < 1 {
        return Err(LineError::MissingWord(0));
    }
    if ws.len() < 2 {
        return Err(LineError::MissingWord(1));
    }
    proof {
        assert(ws@[0]@ == words(line@)[0]);
        assert(ws@[1]@ == words(line@)[1]);
        assert(words(line@)[0].len() > 0);
    }
    let letter = ws[0][0];
    Ok((letter, text_of(&ws[1])))
}

/// Reads a line of the bigram statistics.
pub fn parse_bigram_line(line: &str) -> (r: Result<((char, char), String), LineError>)
    ensures
        match r {
            Ok((pair, freq)) => bigram_line(line@) == Ok::<((char, char), Seq<char>), LineError>((pair, freq@)),
            Err(e) => bigram_line(line@) == Err::<((char, char), Seq<char>), LineError>(e),
        },
{
    let chars = chars_of(line);
    let ws = words_of(&chars);
    proof {
        assert(ws@.len() == words(line@).len());
    }
    if ws.len() < 1 {
        return Err(LineError::MissingWord(0));
    }
    proof {
        assert(ws@[0]@ == words(line@)[0]);
    }
    if ws[0].len() < 2 {
        return Err(LineError::ShortWord(0));
    }
    if ws.len() < 2 {
        return Err(LineError::MissingWord(1));
    }
    proof {
        assert(ws@[1]@ == words(line@)[1]);
    }
    let first = ws[0][0];
    let second = ws[0][1];
    Ok(((first, second), text_of(&ws[1])))
}

/// Reads a line of the keyboard file: `None` for a comment.
pub fn parse_key_line(line: &str) -> (r: Result<Option<KeyFields>, LineError>)
    ensures
        match r {
            Ok(Some(k)) => key_line(line@) == Ok::<Option<(Seq<char>, Seq<char>, Seq<char>, i8, Seq<char>)>, LineError>(
                Some((k.name@, k.x@, k.y@, k.finger, k.effort@)),
            ),
            Ok(None) => key_line(line@) == Ok::<Option<(Seq<char>, Seq<char>, Seq<char>, i8, Seq<char>)>, LineError>(None),
            Err(e) => key_line(line@) == Err::<Option<(Seq<char>, Seq<char>, Seq<char>, i8, Seq<char>)>, LineError>(e),
        },
{
    let chars = chars_of(line);
    // lines starting with # are comments
    if chars.len() > 0 && chars[0] == '#' {
        return Ok(None);
    }
    let ws = words_of(&chars);
    proof {
        assert(ws@.len() == words(line@).len());
        assert forall|k: int| 0 <= k < ws@.len() implies #[trigger] ws@[k]@ == words(line@)[k] by {
            assert(ws@.map_values(|w: Vec<char>| w@)[k] == ws@[k]@);
        }
    }
    if ws.len() < 1 {
        return Err(LineError::MissingWord(0));
    }
    if ws.len() < 2 {
        return Err(LineError::MissingWord(1));
    }
    if ws.len() < 3 {
        return Err(LineError::MissingWord(2));
    }
    if ws.len() < 4 {
        return Err(LineError::MissingWord(3));
    }
    let finger = match parse_i8(&ws[3]) {
        Some(f) => f,
        None => { return Err(LineError::BadNumber(3)); },
    };
    if ws.len() < 5 {
        return Err(LineError::MissingWord(4));
    }
    Ok(Some(KeyFields {
        name: text_of(&ws[0]),
        x: text_of(&ws[1]),
        y: text_of(&ws[2]),
        finger,
        effort: text_of(&ws[4]),
    }))
}

} // verus!
