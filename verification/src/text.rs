//! Text: numbers and bytes as text, and text in pieces.

use vstd::prelude::*;

verus! {

/// `String::push` appends a character.
pub assume_specification[ String::push ](s: &mut String, c: char)
    ensures
        final(s)@ == old(s)@.push(c),
;

/// What `char::is_whitespace` decides.
pub uninterp spec fn is_white(c: char) -> bool;

/// Whether a character is an ASCII letter, a digit, a plus sign or a slash.
pub open spec fn is_plain(c: char) -> bool {
    ||| 'a' <= c <= 'z'
    ||| 'A' <= c <= 'Z'
    ||| '0' <= c <= '9'
    ||| c == '+'
    ||| c == '/'
}

/// Whether a text is one word of plain characters.
pub open spec fn is_plain_word(text: Seq<char>) -> bool {
    &&& text.len() > 0
    &&& forall|i: int| 0 <= i < text.len() ==> is_plain(#[trigger] text[i])
}

/// `char::is_whitespace`: whether a character is white space, which is a
/// function of the character. A space is; ASCII letters, digits, the plus sign
/// and the slash are not.
#[verifier::external_body]
fn check_white(c: char) -> (yes: bool)
    ensures
        yes == is_white(c),
        c == ' ' ==> yes,
        is_plain(c) ==> !yes,
{
    c.is_whitespace()
}

/// The text of two texts, one after the other.
pub fn put_together(a: &str, b: &str) -> (text: String)
    ensures
        text@ == a@ + b@,
{
    let mut text = a.to_string();
    text.append(b);
    text
}

/// The digit of a number below sixteen.
pub open spec fn digit(n: int) -> char {
    if n < 10 {
        (48 + n) as char
    } else {
        (87 + n) as char
    }
}

/// The digit of a number below sixteen.
fn to_digit(n: u8) -> (c: char)
    requires
        n < 16,
    ensures
        c == digit(n as int),
{
    if n < 10 {
        (48 + n) as char
    } else {
        (87 + n) as char
    }
}

/// A number in decimal.
pub open spec fn decimal(n: nat) -> Seq<char>
    decreases n,
{
    if n < 10 {
        seq![digit(n as int)]
    } else {
        decimal(n / 10).push(digit((n % 10) as int))
    }
}

/// Appends a number in decimal.
fn push_decimal(text: &mut String, n: u64)
    ensures
        final(text)@ == old(text)@ + decimal(n as nat),
    decreases n,
{
    if n >= 10 {
        push_decimal(text, n / 10);
    }
    text.push(to_digit((n % 10) as u8));
    assert(text@ =~= old(text)@ + decimal(n as nat));
}

/// A number in decimal.
pub fn to_decimal(n: u64) -> (text: String)
    ensures
        text@ == decimal(n as nat),
{
    let mut text = String::new();
    push_decimal(&mut text, n);
    assert(text@ =~= decimal(n as nat));
    text
}

/// Bytes in hexadecimal, in lower case.
pub open spec fn hex(bytes: Seq<u8>) -> Seq<char>
    decreases bytes.len(),
{
    if bytes.len() == 0 {
        Seq::empty()
    } else {
        hex(bytes.drop_last()).push(digit((bytes.last() / 16) as int)).push(
            digit((bytes.last() % 16) as int),
        )
    }
}

/// Bytes in hexadecimal, in lower case.
pub fn to_hex(bytes: &[u8]) -> (text: String)
    ensures
        text@ == hex(bytes@),
{
    let mut text = String::new();
    let mut i: usize = 0;
    assert(bytes@.take(0) =~= Seq::empty());
    assert(text@ =~= hex(bytes@.take(0)));
    while i < bytes.len()
        invariant
            i <= bytes@.len(),
            text@ == hex(bytes@.take(i as int)),
        decreases bytes@.len() - i,
    {
        proof {
            assert(bytes@.take(i + 1).drop_last() =~= bytes@.take(i as int));
        }
        text.push(to_digit(bytes[i] / 16));
        text.push(to_digit(bytes[i] % 16));
        i = i + 1;
    }
    assert(bytes@.take(bytes@.len() as int) =~= bytes@);
    text
}

/// Bytes take two digits each.
pub proof fn hex_len(bytes: Seq<u8>)
    ensures
        hex(bytes).len() == 2 * bytes.len(),
    decreases bytes.len(),
{
    if bytes.len() > 0 {
        hex_len(bytes.drop_last());
    }
}

/// The digits of the first bytes are the first digits.
pub proof fn hex_prefix(bytes: Seq<u8>, n: int)
    requires
        0 <= n <= bytes.len(),
    ensures
        hex(bytes.take(n)) == hex(bytes).take(2 * n),
    decreases bytes.len(),
{
    hex_len(bytes);
    if n == bytes.len() {
        assert(bytes.take(n) =~= bytes);
        assert(hex(bytes).take(2 * n) =~= hex(bytes));
    } else {
        let rest = bytes.drop_last();
        hex_prefix(rest, n);
        hex_len(rest);
        assert(rest.take(n) =~= bytes.take(n));
        assert(hex(bytes).take(2 * n) =~= hex(rest).take(2 * n));
    }
}

/// What separates the pieces of a text.
#[derive(Debug, Clone, Copy, PartialEq, Eq, Structural)]
pub enum Separator {
    /// White space.
    White,
    /// A slash.
    Slash,
}

impl Separator {
    /// Whether a character separates.
    pub open spec fn separates(self, c: char) -> bool {
        match self {
            Separator::White => is_white(c),
            Separator::Slash => c == '/',
        }
    }

    fn test(&self, c: char) -> (yes: bool)
        ensures
            yes == self.separates(c),
            *self is White && c == ' ' ==> is_white(c),
            *self is White && is_plain(c) ==> !is_white(c),
    {
        match self {
            Separator::White => check_white(c),
            Separator::Slash => c == '/',
        }
    }
}

/// The pieces of a text between separators. No piece is empty.
pub open spec fn pieces(text: Seq<char>, separator: Separator) -> Seq<Seq<char>>
    decreases text.len(),
{
    if text.len() == 0 {
        Seq::empty()
    } else {
        let before = pieces(text.drop_last(), separator);
        if separator.separates(text.last()) {
            before
        } else if text.len() >= 2 && !separator.separates(text[text.len() - 2]) {
            before.drop_last().push(before.last().push(text.last()))
        } else {
            before.push(seq![text.last()])
        }
    }
}

/// The texts of a list.
pub open spec fn texts(list: Seq<String>) -> Seq<Seq<char>> {
    list.map_values(|s: String| s@)
}

/// Whether spaces in a text are white, and plain characters in it are not.
pub open spec fn white_as_usual(text: Seq<char>) -> bool {
    forall|i: int|
        0 <= i < text.len() ==> ((#[trigger] text[i]) == ' ' ==> is_white(text[i])) && (is_plain(
            text[i],
        ) ==> !is_white(text[i]))
}

/// Splits a text at separators, and leaves out empty pieces.
pub fn split(text: &str, separator: Separator) -> (list: Vec<String>)
    ensures
        texts(list@) == pieces(text@, separator),
        separator is White ==> white_as_usual(text@),
{
    let n = text.unicode_len();
    let mut list: Vec<String> = Vec::new();
    let mut piece = String::new();
    let mut open = false;
    let mut i: usize = 0;
    assert(texts(list@) =~= pieces(text@.take(0), separator));
    while i < n
        invariant
            n == text@.len(),
            i <= n,
            separator is White ==> white_as_usual(text@.take(i as int)),
            open == (i > 0 && !separator.separates(text@[i - 1])),
            open ==> texts(list@).push(piece@) == pieces(text@.take(i as int), separator),
            !open ==> piece@ == Seq::<char>::empty() && texts(list@) == pieces(
                text@.take(i as int),
                separator,
            ),
        decreases n - i,
    {
        let c = text.get_char(i);
        let ghost now = text@.take(i + 1);
        proof {
            assert(now.drop_last() =~= text@.take(i as int));
            assert(now.last() == c);
            if now.len() >= 2 {
                assert(now[now.len() - 2] == text@[i - 1]);
            }
        }
        let separates = separator.test(c);
        proof {
            if separator is White {
                assert forall|k: int| 0 <= k < now.len() implies ((#[trigger] now[k]) == ' '
                    ==> is_white(now[k])) && (is_plain(now[k]) ==> !is_white(now[k])) by {
                    if k < i {
                        assert(now[k] == text@.take(i as int)[k]);
                    }
                }
            }
        }
        if separates {
            if open {
                let ghost before = list@;
                list.push(piece);
                assert(texts(list@) =~= texts(before).push(piece@));
                piece = String::new();
            }
            assert(piece@ =~= Seq::<char>::empty());
            open = false;
        } else {
            let ghost before = piece@;
            piece.push(c);
            proof {
                if open {
                    let old_pieces = texts(list@).push(before);
                    assert(old_pieces.drop_last() =~= texts(list@));
                    assert(old_pieces.last() == before);
                } else {
                    assert(piece@ =~= seq![c]);
                }
            }
            open = true;
        }
        i = i + 1;
    }
    assert(text@.take(n as int) =~= text@);
    if open {
        let ghost before = list@;
        list.push(piece);
        assert(texts(list@) =~= texts(before).push(piece@));
    }
    list
}

/// Characters that do not separate, behind a separator or at the start, are one
/// more piece.
pub proof fn one_more_piece(text: Seq<char>, piece: Seq<char>, separator: Separator)
    requires
        piece.len() > 0,
        forall|i: int| 0 <= i < piece.len() ==> !separator.separates(#[trigger] piece[i]),
        text.len() == 0 || separator.separates(text.last()),
    ensures
        pieces(text + piece, separator) == pieces(text, separator).push(piece),
    decreases piece.len(),
{
    let all = text + piece;
    assert(all.last() == piece[piece.len() - 1]);
    if piece.len() == 1 {
        assert(all.drop_last() =~= text);
        assert(piece =~= seq![piece[0]]);
        if all.len() >= 2 {
            assert(all[all.len() - 2] == text.last());
        }
    } else {
        let shorter = piece.drop_last();
        assert forall|i: int| 0 <= i < shorter.len() implies !separator.separates(
            #[trigger] shorter[i],
        ) by {
            assert(shorter[i] == piece[i]);
        }
        one_more_piece(text, shorter, separator);
        assert(all.drop_last() =~= text + shorter);
        assert(all[all.len() - 2] == piece[piece.len() - 2]);
        let before = pieces(text, separator).push(shorter);
        assert(before.drop_last() =~= pieces(text, separator));
        assert(piece =~= shorter.push(piece.last()));
    }
}

/// Two plain words with a space between them are two words.
pub proof fn two_words(first: Seq<char>, second: Seq<char>)
    requires
        is_plain_word(first),
        is_plain_word(second),
        white_as_usual(first.push(' ') + second),
    ensures
        pieces(first.push(' ') + second, Separator::White) == seq![first, second],
{
    let head = first.push(' ');
    let all = head + second;
    let none = Seq::<char>::empty();
    assert forall|i: int| 0 <= i < first.len() implies !Separator::White.separates(
        #[trigger] first[i],
    ) by {
        assert(all[i] == first[i]);
    }
    assert forall|i: int| 0 <= i < second.len() implies !Separator::White.separates(
        #[trigger] second[i],
    ) by {
        assert(all[head.len() + i] == second[i]);
    }
    assert(all[first.len() as int] == ' ');
    one_more_piece(none, first, Separator::White);
    assert(none + first =~= first);
    assert(head.drop_last() =~= first);
    one_more_piece(head, second, Separator::White);
    assert(pieces(all, Separator::White) =~= seq![first, second]);
}

/// No piece is empty or holds a separator.
pub proof fn pieces_are_clean(text: Seq<char>, separator: Separator)
    ensures
        forall|i: int|
            0 <= i < pieces(text, separator).len() ==> (#[trigger] pieces(
                text,
                separator,
            )[i]).len() > 0 && forall|k: int|
                0 <= k < pieces(text, separator)[i].len() ==> !separator.separates(
                    #[trigger] pieces(text, separator)[i][k],
                ),
        text.len() > 0 && !separator.separates(text.last()) ==> pieces(text, separator).len() > 0,
    decreases text.len(),
{
    if text.len() > 0 {
        let rest = text.drop_last();
        pieces_are_clean(rest, separator);
        let before = pieces(rest, separator);
        let after = pieces(text, separator);
        if !separator.separates(text.last()) {
            if text.len() >= 2 && !separator.separates(text[text.len() - 2]) {
                assert(rest.last() == text[text.len() - 2]);
                let last = before.last();
                assert(last == before[before.len() - 1]);
                assert forall|i: int| 0 <= i < after.len() implies (#[trigger] after[i]).len() > 0
                    && forall|k: int|
                    0 <= k < after[i].len() ==> !separator.separates(#[trigger] after[i][k]) by {
                    if i < before.len() - 1 {
                        assert(after[i] == before[i]);
                    } else {
                        assert(after[i] == last.push(text.last()));
                    }
                }
            } else {
                assert forall|i: int| 0 <= i < after.len() implies (#[trigger] after[i]).len() > 0
                    && forall|k: int|
                    0 <= k < after[i].len() ==> !separator.separates(#[trigger] after[i][k]) by {
                    if i < before.len() {
                        assert(after[i] == before[i]);
                    } else {
                        assert(after[i] == seq![text.last()]);
                    }
                }
            }
        }
    }
}

/// Whether all characters are decimal digits.
pub open spec fn all_digits(text: Seq<char>) -> bool {
    forall|i: int| 0 <= i < text.len() ==> '0' <= #[trigger] text[i] <= '9'
}

/// The value of decimal digits.
pub open spec fn value(text: Seq<char>) -> nat
    decreases text.len(),
{
    if text.len() == 0 {
        0
    } else {
        value(text.drop_last()) * 10 + (text.last() as int - 48) as nat
    }
}

/// A text without its sign.
pub open spec fn unsigned(text: Seq<char>) -> Seq<char> {
    if text.len() > 0 && text[0] == '+' {
        text.skip(1)
    } else {
        text
    }
}

/// The number that a text holds: digits, with an optional plus sign before
/// them, whose value fits in a `u64`.
pub open spec fn number_in(text: Seq<char>) -> Option<u64> {
    let digits = unsigned(text);
    if digits.len() > 0 && all_digits(digits) && value(digits) <= u64::MAX {
        Some(value(digits) as u64)
    } else {
        None
    }
}

/// Why a text holds no number.
#[derive(Debug, Clone, Copy, PartialEq, Eq, Structural)]
pub enum NumberError {
    /// It is empty.
    Empty,
    /// Something in it is no digit, or there is nothing but a sign.
    InvalidDigit,
    /// Its value does not fit in a `u64`.
    TooLarge,
}

impl NumberError {
    /// What to tell the user.
    pub open spec fn text(self) -> Seq<char> {
        match self {
            NumberError::Empty => "cannot parse integer from empty string"@,
            NumberError::InvalidDigit => "invalid digit found in string"@,
            NumberError::TooLarge => "number too large to fit in target type"@,
        }
    }

    /// What to tell the user.
    pub fn message(&self) -> (message: String)
        ensures
            message@ == self.text(),
    {
        match self {
            NumberError::Empty => "cannot parse integer from empty string".to_string(),
            NumberError::InvalidDigit => "invalid digit found in string".to_string(),
            NumberError::TooLarge => "number too large to fit in target type".to_string(),
        }
    }
}

/// Whether the value of the digits at the start of a text does not fit in a
/// `u64`.
pub open spec fn starts_too_large(text: Seq<char>) -> bool {
    exists|k: int|
        0 <= k <= text.len() && all_digits(#[trigger] text.take(k)) && value(text.take(k))
            > u64::MAX
}

/// Why a text holds no number. It is read from the left: digits that do not
/// fit are told before what follows them.
pub open spec fn number_error(text: Seq<char>) -> NumberError {
    if text.len() == 0 {
        NumberError::Empty
    } else if starts_too_large(unsigned(text)) {
        NumberError::TooLarge
    } else {
        NumberError::InvalidDigit
    }
}

/// Reads a number.
pub fn parse_number(text: &str) -> (number: Result<u64, NumberError>)
    ensures
        number == (match number_in(text@) {
            Some(n) => Ok(n),
            None => Err(number_error(text@)),
        }),
{
    let n = text.unicode_len();
    let start: usize = if n > 0 && text.get_char(0) == '+' { 1 } else { 0 };
    let ghost digits = unsigned(text@);
    assert(digits =~= text@.skip(start as int));
    if n == 0 {
        return Err(NumberError::Empty);
    }
    if start == n {
        assert(!starts_too_large(digits));
        return Err(NumberError::InvalidDigit);
    }
    let mut number: u64 = 0;
    let mut i: usize = start;
    assert(digits.take(0) =~= Seq::empty());
    while i < n
        invariant
            n == text@.len(),
            start <= i <= n,
            start < n,
            digits == unsigned(text@),
            digits == text@.skip(start as int),
            all_digits(digits.take(i - start)),
            number == value(digits.take(i - start)),
        decreases n - i,
    {
        let c = text.get_char(i);
        let ghost k = i - start;
        let ghost now = digits.take(k + 1);
        proof {
            assert(digits[k] == c);
            assert(now.drop_last() =~= digits.take(k));
            assert(now.last() == c);
        }
        if c < '0' || c > '9' {
            assert(!all_digits(digits));
            assert(!starts_too_large(digits)) by {
                assert forall|j: int|
                    0 <= j <= digits.len() && all_digits(#[trigger] digits.take(j)) implies value(
                    digits.take(j),
                ) <= u64::MAX by {
                    if j > k {
                        assert(digits.take(j)[k] == c);
                    } else {
                        value_grows(digits.take(k), j);
                        assert(digits.take(k).take(j) =~= digits.take(j));
                    }
                }
            }
            return Err(NumberError::InvalidDigit);
        }
        let d = c as u32 - 48;
        proof {
            value_grows(digits, k + 1);
            assert(all_digits(now)) by {
                assert forall|j: int| 0 <= j < now.len() implies '0' <= #[trigger] now[j]
                    <= '9' by {
                    if j < k {
                        assert(now[j] == digits.take(k)[j]);
                    }
                }
            }
        }
        if number > (u64::MAX - d as u64) / 10 {
            assert(value(now) > u64::MAX);
            assert(starts_too_large(digits));
            return Err(NumberError::TooLarge);
        }
        number = number * 10 + d as u64;
        i = i + 1;
    }
    assert(digits.take(digits.len() as int) =~= digits);
    Ok(number)
}

/// More digits make no smaller value.
proof fn value_grows(digits: Seq<char>, n: int)
    requires
        0 <= n <= digits.len(),
    ensures
        value(digits.take(n)) <= value(digits),
    decreases digits.len(),
{
    if n == digits.len() {
        assert(digits.take(n) =~= digits);
    } else {
        value_grows(digits.drop_last(), n);
        assert(digits.drop_last().take(n) =~= digits.take(n));
    }
}

/// The texts of a list with a separator between them.
pub open spec fn joined(list: Seq<Seq<char>>, separator: Seq<char>) -> Seq<char>
    decreases list.len(),
{
    if list.len() == 0 {
        Seq::empty()
    } else if list.len() == 1 {
        list[0]
    } else {
        joined(list.drop_last(), separator) + separator + list.last()
    }
}

/// Puts the texts of a list behind each other, with a separator between them.
pub fn join(list: &Vec<String>, separator: &str) -> (text: String)
    ensures
        text@ == joined(texts(list@), separator@),
{
    let mut text = String::new();
    let mut i: usize = 0;
    let ghost all = texts(list@);
    assert(all.take(0) =~= Seq::empty());
    assert(text@ =~= joined(all.take(0), separator@));
    while i < list.len()
        invariant
            i <= list@.len(),
            all == texts(list@),
            text@ == joined(all.take(i as int), separator@),
        decreases list@.len() - i,
    {
        proof {
            assert(all.take(i + 1).drop_last() =~= all.take(i as int));
            assert(all.take(i + 1).last() == list@[i as int]@);
        }
        if i > 0 {
            text.append(separator);
        }
        text.append(list[i].as_str());
        assert(text@ =~= joined(all.take(i + 1), separator@));
        i = i + 1;
    }
    assert(all.take(all.len() as int) =~= all);
    text
}

/// A character so many times.
pub fn repeat(c: char, n: usize) -> (text: String)
    ensures
        text@ == Seq::new(n as nat, |i: int| c),
{
    let mut text = String::new();
    let mut i: usize = 0;
    while i < n
        invariant
            i <= n,
            text@ == Seq::new(i as nat, |k: int| c),
        decreases n - i,
    {
        text.push(c);
        i = i + 1;
        assert(text@ =~= Seq::new(i as nat, |k: int| c));
    }
    text
}

/// A number is read back from its digits.
pub proof fn decimal_is_read_back(n: u64)
    ensures
        number_in(decimal(n as nat)) == Some(n),
{
    decimal_digits(n as nat);
    let text = decimal(n as nat);
    assert('0' <= text[0]);
    assert(unsigned(text) == text);
}

proof fn decimal_digits(n: nat)
    ensures
        decimal(n).len() > 0,
        all_digits(decimal(n)),
        value(decimal(n)) == n,
    decreases n,
{
    if n >= 10 {
        decimal_digits(n / 10);
        let text = decimal(n);
        assert(text.drop_last() =~= decimal(n / 10));
        assert forall|i: int| 0 <= i < text.len() implies '0' <= #[trigger] text[i] <= '9' by {
            if i < text.len() - 1 {
                assert(text[i] == decimal(n / 10)[i]);
            }
        }
    } else {
        assert(value(decimal(n).drop_last()) == 0);
    }
}

/// A separator at the end of a text ends a piece, and makes none.
pub proof fn separator_makes_no_piece(text: Seq<char>, c: char, separator: Separator)
    requires
        separator.separates(c),
    ensures
        pieces(text.push(c), separator) == pieces(text, separator),
        pieces(Seq::empty(), separator) == Seq::<Seq<char>>::empty(),
{
    assert(text.push(c).drop_last() =~= text);
}

/// Paths are split at slashes alone, and words at white space alone.
pub proof fn what_separates(c: char)
    ensures
        Separator::Slash.separates(c) <==> c == '/',
        Separator::White.separates(c) <==> is_white(c),
{
}

/// Splitting a text that names were put together to, with slashes between them,
/// gives the names.
pub proof fn joined_names_are_split(names: Seq<Seq<char>>)
    requires
        forall|i: int| 0 <= i < names.len() ==> (#[trigger] names[i]).len() > 0,
        forall|i: int, k: int|
            0 <= i < names.len() && 0 <= k < names[i].len() ==> #[trigger] names[i][k] != '/',
    ensures
        pieces(joined(names, seq!['/']), Separator::Slash) == names,
    decreases names.len(),
{
    let slash = seq!['/'];
    if names.len() == 0 {
        assert(names =~= Seq::empty());
    } else {
        let rest = names.drop_last();
        let last = names.last();
        assert forall|i: int| 0 <= i < rest.len() implies (#[trigger] rest[i]).len() > 0 by {
            assert(rest[i] == names[i]);
        }
        assert forall|i: int, k: int| 0 <= i < rest.len() && 0 <= k < rest[i].len() implies
            #[trigger] rest[i][k] != '/' by {
            assert(rest[i] == names[i]);
            assert(names[i][k] != '/');
        }
        joined_names_are_split(rest);
        assert(last == names[names.len() - 1]);
        assert forall|k: int| 0 <= k < last.len() implies !Separator::Slash.separates(
            #[trigger] last[k],
        ) by {
            assert(names[names.len() - 1][k] != '/');
        }
        if names.len() == 1 {
            let none = Seq::<char>::empty();
            one_more_piece(none, last, Separator::Slash);
            assert(none + last =~= names[0]);
            assert(names =~= Seq::<Seq<char>>::empty().push(last));
        } else {
            let head = joined(rest, slash);
            separator_makes_no_piece(head, '/', Separator::Slash);
            assert(head + slash =~= head.push('/'));
            one_more_piece(head.push('/'), last, Separator::Slash);
            assert(names =~= rest.push(last));
        }
    }
}

/// One text alone is put together to itself, none to nothing, and two lists to
/// what each is put together to, with the separator between them.
pub proof fn joined_of_parts(a: Seq<Seq<char>>, b: Seq<Seq<char>>, separator: Seq<char>)
    ensures
        joined(Seq::empty(), separator) == Seq::<char>::empty(),
        a.len() == 1 ==> joined(a, separator) == a[0],
        a.len() > 0 && b.len() > 0 ==> joined(a + b, separator) == joined(a, separator)
            + separator + joined(b, separator),
    decreases b.len(),
{
    if a.len() > 0 && b.len() > 0 {
        let all = a + b;
        let rest = b.drop_last();
        assert(all.drop_last() =~= a + rest);
        assert(all.last() == b.last());
        if rest.len() == 0 {
            assert(a + rest =~= a);
        } else {
            joined_of_parts(a, rest, separator);
            assert(joined(all, separator) =~= joined(a, separator) + separator + joined(
                b,
                separator,
            ));
        }
    }
}

/// The texts of a list are those of its items, in order.
pub proof fn texts_of_items(list: Seq<String>)
    ensures
        texts(list).len() == list.len(),
        forall|i: int| 0 <= i < list.len() ==> #[trigger] texts(list)[i] == list[i]@,
{
}

/// The digits of bytes are those of the first ones, and then those of the rest;
/// one byte has two, that of its sixteens and that of its ones.
pub proof fn hex_of_parts(a: Seq<u8>, b: Seq<u8>, byte: u8)
    ensures
        hex(a + b) == hex(a) + hex(b),
        hex(seq![byte]) == seq![digit(byte as int / 16), digit(byte as int % 16)],
    decreases b.len(),
{
    assert(seq![byte].drop_last() =~= Seq::<u8>::empty());
    assert(hex(seq![byte].drop_last()) =~= Seq::<char>::empty());
    assert(hex(seq![byte]) =~= seq![digit(byte as int / 16), digit(byte as int % 16)]);
    if b.len() == 0 {
        assert(a + b =~= a);
        assert(hex(a) + hex(b) =~= hex(a));
    } else {
        hex_of_parts(a, b.drop_last(), byte);
        assert((a + b).drop_last() =~= a + b.drop_last());
        assert(hex(a + b) =~= hex(a) + hex(b));
    }
}

/// The digits below sixteen, one by one.
pub proof fn digits_are_these(n: int)
    requires
        0 <= n < 16,
    ensures
        digit(n) == seq![
            '0',
            '1',
            '2',
            '3',
            '4',
            '5',
            '6',
            '7',
            '8',
            '9',
            'a',
            'b',
            'c',
            'd',
            'e',
            'f',
        ][n],
{
}

/// A number in decimal has only digits, none that is zero before another one,
/// and the last digit counts the ones.
pub proof fn decimal_is_short(n: nat)
    ensures
        decimal(n).len() > 0,
        all_digits(decimal(n)),
        n > 0 ==> decimal(n)[0] != '0',
        n == 0 ==> decimal(n) == seq!['0'],
        decimal(n).last() == digit((n % 10) as int),
        value(decimal(n)) == n,
    decreases n,
{
    decimal_digits(n);
    if n >= 10 {
        decimal_is_short(n / 10);
        assert(decimal(n)[0] == decimal(n / 10)[0]);
    }
}

/// Reading goes from the left: one more digit makes ten times the number and
/// the digit, as long as it fits, and a plus sign before a number changes
/// nothing.
pub proof fn number_of_more_digits(text: Seq<char>, n: u64, c: char)
    requires
        number_in(text) == Some(n),
        '0' <= c <= '9',
    ensures
        n * 10 + (c as int - 48) <= u64::MAX ==> number_in(text.push(c)) == Some(
            (n * 10 + (c as int - 48)) as u64,
        ),
        n * 10 + (c as int - 48) > u64::MAX ==> number_in(text.push(c)) is None,
        text[0] != '+' ==> number_in(seq!['+'] + text) == Some(n),
        number_in(seq![c]) == Some((c as int - 48) as u64),
{
    let more = text.push(c);
    assert(unsigned(more) =~= unsigned(text).push(c));
    let digits = unsigned(text);
    assert(digits.push(c).drop_last() =~= digits);
    assert forall|i: int| 0 <= i < digits.push(c).len() implies '0' <= #[trigger] digits.push(
        c,
    )[i] <= '9' by {
        if i < digits.len() {
            assert(digits[i] == digits.push(c)[i]);
        }
    }
    if text[0] != '+' {
        assert(unsigned(seq!['+'] + text) =~= text);
    }
    let one = seq![c];
    assert(unsigned(one) == one);
    assert(one.drop_last() =~= Seq::<char>::empty());
    assert(value(one.drop_last()) == 0);
    assert(value(one) == c as int - 48);
}

/// What is no number: a text without a digit, with anything else than digits
/// behind its sign, or with digits that do not fit.
pub proof fn other_texts_are_no_numbers(text: Seq<char>, k: int)
    ensures
        text.len() == 0 ==> number_in(text) is None && number_error(text) is Empty,
        text == seq!['+'] ==> number_in(text) is None && number_error(text) is InvalidDigit,
        0 < k < text.len() && !('0' <= text[k] <= '9') ==> number_in(text) is None,
        text.len() > 0 && !('0' <= text[0] <= '9') && text[0] != '+' ==> number_in(text) is None
            && number_error(text) is InvalidDigit,
{
    let digits = unsigned(text);
    if text == seq!['+'] {
        assert(digits =~= Seq::<char>::empty());
        assert(!starts_too_large(digits));
    }
    if 0 < k < text.len() && !('0' <= text[k] <= '9') {
        if text[0] == '+' {
            assert(digits[k - 1] == text[k]);
        } else {
            assert(digits[k] == text[k]);
        }
    }
    if text.len() > 0 && !('0' <= text[0] <= '9') && text[0] != '+' {
        assert(digits[0] == text[0]);
        assert(!starts_too_large(digits)) by {
            assert forall|j: int|
                0 <= j <= digits.len() && all_digits(#[trigger] digits.take(j)) implies value(
                digits.take(j),
            ) <= u64::MAX by {
                if j > 0 {
                    assert(digits.take(j)[0] == text[0]);
                }
            }
        }
    }
}

/// Digits that do not fit are too large, whatever follows them.
pub proof fn too_many_digits_are_too_large(text: Seq<char>, more: Seq<char>)
    requires
        text.len() > 0,
        all_digits(text),
        value(text) > u64::MAX,
    ensures
        number_in(text + more) is None,
        number_error(text + more) is TooLarge,
{
    let all = text + more;
    assert(all[0] == text[0]);
    assert('0' <= text[0] <= '9');
    assert(unsigned(all) == all);
    assert(all.take(text.len() as int) =~= text);
    value_grows(all, text.len() as int);
    assert(all_digits(all.take(text.len() as int)));
}

} // verus!
