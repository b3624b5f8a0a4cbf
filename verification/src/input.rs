//! Reading a board from text.
//!
//! A board is written as fifteen lines, top row first. Each line holds the
//! colour codes of one row as whole numbers with blanks between them.

use vstd::prelude::*;
use vstd::string::StrSliceExecFns;
use crate::board::{grid_of_rows, rows_fit, Board};

verus! {

/// The character is white space.
pub open spec fn is_blank(c: char) -> bool {
    ||| '\u{9}' <= c <= '\u{d}'
    ||| c == ' '
    ||| c == '\u{85}'
    ||| c == '\u{a0}'
    ||| c == '\u{1680}'
    ||| '\u{2000}' <= c <= '\u{200a}'
    ||| c == '\u{2028}'
    ||| c == '\u{2029}'
    ||| c == '\u{202f}'
    ||| c == '\u{205f}'
    ||| c == '\u{3000}'
}

/// The character is a decimal digit.
pub open spec fn is_digit(c: char) -> bool {
    '0' <= c <= '9'
}

/// Every character is a decimal digit.
pub open spec fn all_digits(s: Seq<char>) -> bool {
    forall|i: int| 0 <= i < s.len() ==> is_digit(#[trigger] s[i])
}

/// The number that the digits write.
pub open spec fn number_of(digits: Seq<char>) -> int
    decreases digits.len(),
{
    if digits.len() == 0 {
        0
    } else {
        number_of(digits.drop_last()) * 10 + (digits.last() as int - '0' as int)
    }
}

/// The digits of a word: the word without its sign.
pub open spec fn digits_of(word: Seq<char>) -> Seq<char> {
    if word.len() > 0 && (word[0] == '-' || word[0] == '+') {
        word.skip(1)
    } else {
        word
    }
}

/// The number that a word writes: an optional sign and at least one digit.
pub open spec fn signed_number(word: Seq<char>) -> int {
    if word.len() > 0 && word[0] == '-' {
        -number_of(digits_of(word))
    } else {
        number_of(digits_of(word))
    }
}

/// The colour code that a word writes, if it writes a number that fits.
pub open spec fn code_of(word: Seq<char>) -> Option<i32> {
    if digits_of(word).len() > 0 && all_digits(digits_of(word)) && i32::MIN <= signed_number(
        word,
    ) <= i32::MAX {
        Some(signed_number(word) as i32)
    } else {
        None
    }
}

/// The words of a text: its longest stretches without white space, in
/// order.
pub open spec fn words(s: Seq<char>) -> Seq<Seq<char>>
    decreases s.len(),
{
    if s.len() == 0 {
        Seq::empty()
    } else {
        let before = words(s.drop_last());
        let c = s.last();
        if is_blank(c) {
            before
        } else if s.len() >= 2 && !is_blank(s[s.len() - 2]) {
            before.drop_last().push(before.last().push(c))
        } else {
            before.push(seq![c])
        }
    }
}

/// Every word writes a colour code.
pub open spec fn all_codes(ws: Seq<Seq<char>>) -> bool {
    forall|k: int| 0 <= k < ws.len() ==> code_of(#[trigger] ws[k]) is Some
}

/// The colour codes that a line writes, if each of its words writes one.
pub open spec fn row_of(line: Seq<char>) -> Option<Seq<i32>> {
    if all_codes(words(line)) {
        Some(Seq::new(words(line).len(), |k: int| code_of(words(line)[k])->0))
    } else {
        None
    }
}

/// Every line writes colour codes.
pub open spec fn all_rows(lines: Seq<Seq<char>>) -> bool {
    forall|r: int| 0 <= r < lines.len() ==> row_of(#[trigger] lines[r]) is Some
}

/// The rows of colour codes that lines write.
pub open spec fn rows_of(lines: Seq<Seq<char>>) -> Seq<Seq<i32>> {
    Seq::new(lines.len(), |r: int| row_of(lines[r])->0)
}

/// Digits write a number that is not negative and not less than what
/// their first digits write.
pub proof fn lemma_number_grows(digits: Seq<char>, k: int)
    requires
        all_digits(digits),
        0 <= k <= digits.len(),
    ensures
        0 <= number_of(digits.take(k)) <= number_of(digits),
    decreases digits.len(),
{
    if digits.len() == 0 {
        assert(digits.take(k) =~= digits);
    } else if k == digits.len() {
        assert(digits.take(k) =~= digits);
        lemma_number_grows(digits.drop_last(), k - 1);
        assert(is_digit(digits.last()));
    } else {
        lemma_number_grows(digits.drop_last(), k);
        assert(digits.drop_last().take(k) =~= digits.take(k));
        assert(is_digit(digits.last()));
    }
}

/// The words of a text that ends in white space stay the first words of
/// every longer text.
pub proof fn lemma_words_stay(s: Seq<char>, i: int, j: int)
    requires
        0 <= i < j <= s.len(),
        is_blank(s[i]),
    ensures
        words(s.take(i)).len() <= words(s.take(j)).len(),
        forall|k: int|
            0 <= k < words(s.take(i)).len() ==> #[trigger] words(s.take(j))[k] == words(
                s.take(i),
            )[k],
    decreases j,
{
    let t = s.take(j);
    assert(t.drop_last() =~= s.take(j - 1));
    assert(t.last() == s[j - 1]);
    if j == i + 1 {
        assert(is_blank(t.last()));
    } else {
        lemma_words_stay(s, i, j - 1);
        let before = words(s.take(j - 1));
        if !is_blank(t.last()) && j >= 2 && !is_blank(t[j - 2]) {
            // the last word grows; it began after place `i`
            assert(t[j - 2] == s[j - 2]);
            lemma_last_word_is_open(s, i, j - 1);
        }
    }
}

/// A text that does not end in white space has more words than its
/// beginning up to an earlier white space.
pub proof fn lemma_last_word_is_open(s: Seq<char>, i: int, j: int)
    requires
        0 <= i < j <= s.len(),
        is_blank(s[i]),
        !is_blank(s[j - 1]),
    ensures
        words(s.take(i)).len() < words(s.take(j)).len(),
    decreases j,
{
    let t = s.take(j);
    assert(t.drop_last() =~= s.take(j - 1));
    assert(t.last() == s[j - 1]);
    assert(j - 1 > i);
    if j >= 2 && !is_blank(t[j - 2]) {
        assert(t[j - 2] == s[j - 2]);
        lemma_last_word_is_open(s, i, j - 1);
    } else {
        if j - 1 == i + 1 {
            assert(s.take(j - 1).drop_last() =~= s.take(i));
            assert(s.take(j - 1).last() == s[i]);
        } else {
            lemma_words_stay(s, i, j - 1);
        }
    }
}

/// Whether the character is white space.
pub fn blank(c: char) -> (r: bool)
    ensures
        r == is_blank(c),
{
    (c >= '\u{9}' && c <= '\u{d}') || c == ' ' || c == '\u{85}' || c == '\u{a0}' || c
        == '\u{1680}' || (c >= '\u{2000}' && c <= '\u{200a}') || c == '\u{2028}' || c
        == '\u{2029}' || c == '\u{202f}' || c == '\u{205f}' || c == '\u{3000}'
}

/// Reads the colour code that a word writes.
pub fn parse_code(word: &Vec<char>) -> (r: Option<i32>)
    ensures
        r == code_of(word@),
{
    let n: usize = word.len();
    if n == 0 {
        return None;
    }
    let negative: bool = word[0] == '-';
    let start: usize = if word[0] == '-' || word[0] == '+' {
        1
    } else {
        0
    };
    let ghost digits = digits_of(word@);
    assert(digits =~= word@.skip(start as int));
    if start == n {
        return None;
    }
    let mut acc: i64 = 0;
    let mut i: usize = start;
    while i < n
        invariant
            start <= i <= n,
            n == word@.len(),
            digits == word@.skip(start as int),
            digits == digits_of(word@),
            all_digits(digits.take(i - start)),
            acc == number_of(digits.take(i - start)),
            0 <= acc <= 2_147_483_648,
        decreases n - i,
    {
        let c = word[i];
        let ghost k = i - start;
        proof {
            assert(digits.take(k + 1).drop_last() =~= digits.take(k));
            assert(digits.take(k + 1).last() == c);
            assert(digits[k] == c);
        }
        if !(c >= '0' && c <= '9') {
            assert(!is_digit(digits[k]));
            return None;
        }
        acc = acc * 10 + (c as u32 - '0' as u32) as i64;
        proof {
            assert forall|q: int| 0 <= q < digits.take(k + 1).len() implies is_digit(
                #[trigger] digits.take(k + 1)[q],
            ) by {
                if q < k {
                    assert(digits.take(k)[q] == digits.take(k + 1)[q]);
                }
            }
        }
        assert(acc == number_of(digits.take(k + 1)));
        if acc > 2_147_483_648 {
            proof {
                if all_digits(digits) {
                    lemma_number_grows(digits, k + 1);
                    assert(number_of(digits) > 2_147_483_648);
                }
            }
            return None;
        }
        i += 1;
    }
    assert(digits.take(n - start) =~= digits);
    if negative {
        Some((-acc) as i32)
    } else if acc > 2_147_483_647 {
        None
    } else {
        Some(acc as i32)
    }
}

/// Reads the colour codes that a line writes. There are none to read
/// where a word of the line does not write a number that fits.
pub fn parse_row(line: &str) -> (r: Option<Vec<i32>>)
    ensures
        r is Some <==> row_of(line@) is Some,
        r matches Some(row) ==> row@ == row_of(line@)->0,
{
    let ghost s = line@;
    let n: usize = line.unicode_len();
    let mut row: Vec<i32> = Vec::new();
    let mut word: Vec<char> = Vec::new();
    let mut i: usize = 0;
    while i < n
        invariant
            s == line@,
            n == s.len(),
            i <= n,
            word@.len() > 0 <==> i > 0 && !is_blank(s[i - 1]),
            word@.len() > 0 ==> words(s.take(i as int)).len() == row@.len() + 1 && words(
                s.take(i as int),
            ).last() == word@,
            word@.len() == 0 ==> words(s.take(i as int)).len() == row@.len(),
            forall|k: int|
                0 <= k < row@.len() ==> code_of(#[trigger] words(s.take(i as int))[k]) == Some(
                    row@[k],
                ),
        decreases n - i,
    {
        let c = line.get_char(i);
        let ghost before = words(s.take(i as int));
        proof {
            assert(s.take(i as int + 1).drop_last() =~= s.take(i as int));
            assert(s.take(i as int + 1).last() == c);
            if i > 0 {
                assert(s.take(i as int + 1)[i as int - 1] == s[i as int - 1]);
            }
        }
        if blank(c) {
            if word.len() > 0 {
                match parse_code(&word) {
                    Some(code) => {
                        row.push(code);
                    },
                    None => {
                        proof {
                            lemma_words_stay(s, i as int, n as int);
                            assert(s.take(n as int) =~= s);
                            assert(code_of(words(s)[before.len() - 1]) is None);
                        }
                        return None;
                    },
                }
                word = Vec::new();
            }
        } else {
            word.push(c);
        }
        i += 1;
    }
    assert(s.take(n as int) =~= s);
    if word.len() > 0 {
        match parse_code(&word) {
            Some(code) => {
                row.push(code);
            },
            None => {
                proof {
                    assert(code_of(words(s)[words(s).len() - 1]) is None);
                }
                return None;
            },
        }
    }
    assert(row@ =~= row_of(s)->0);
    Some(row)
}

/// Reads a board from its lines. There is none to read unless every line
/// writes colour codes, and the lines are fifteen rows of at least fifteen
/// codes each.
pub fn parse_board(lines: &Vec<String>) -> (r: Option<Board>)
    ensures
        r is Some <==> all_rows(lines.deep_view()) && rows_fit(rows_of(lines.deep_view())),
        r matches Some(b) ==> b.wf() && b@ == grid_of_rows(rows_of(lines.deep_view())),
{
    let ghost text = lines.deep_view();
    assert(text.len() == lines@.len());
    assert(forall|r: int| 0 <= r < lines@.len() ==> #[trigger] text[r] == lines@[r]@);
    let mut rows: Vec<Vec<i32>> = Vec::new();
    let mut i: usize = 0;
    while i < lines.len()
        invariant
            i <= lines@.len(),
            text == lines.deep_view(),
            text.len() == lines@.len(),
            forall|r: int| 0 <= r < lines@.len() ==> #[trigger] text[r] == lines@[r]@,
            rows@.len() == i,
            forall|r: int| 0 <= r < i ==> row_of(#[trigger] text[r]) == Some(rows@[r]@),
        decreases lines@.len() - i,
    {
        match parse_row(lines[i].as_str()) {
            Some(row) => {
                rows.push(row);
            },
            None => {
                assert(row_of(text[i as int]) is None);
                return None;
            },
        }
        i += 1;
    }
    proof {
        assert(rows.deep_view() =~= rows_of(text)) by {
            assert(rows.deep_view().len() == rows@.len());
            assert forall|r: int| 0 <= r < rows@.len() implies #[trigger] rows.deep_view()[r]
                == rows_of(text)[r] by {
                assert(rows.deep_view()[r] == rows@[r]@);
                assert(row_of(text[r]) == Some(rows@[r]@));
            }
        }
    }
    Board::from_rows(&rows)
}

} // verus!
