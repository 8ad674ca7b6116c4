//! Text in and out of the plugin: substring search, comma lists, numbers, case folding.

use vstd::prelude::*;
use vstd::string::StringExecFns;
use vstd::string::StrSliceExecFns;

verus! {

/// `part` stands in `text` at position `at`.
pub open spec fn occurs_at(text: Seq<char>, part: Seq<char>, at: int) -> bool {
    &&& 0 <= at
    &&& at + part.len() <= text.len()
    &&& text.subrange(at, at + part.len()) == part
}

/// `part` stands somewhere in `text`.
pub open spec fn contains_text(text: Seq<char>, part: Seq<char>) -> bool {
    exists|at: int| occurs_at(text, part, at)
}

/// The position of the first `c` in `text`, or the length of `text` if there is none.
pub open spec fn first_position(text: Seq<char>, c: char) -> int
    decreases text.len(),
{
    if text.len() == 0 || text[0] == c {
        0
    } else {
        1 + first_position(text.drop_first(), c)
    }
}

/// The pieces of `text` between the separators: one more than there are separators.
pub open spec fn split_text(text: Seq<char>, separator: char) -> Seq<Seq<char>>
    decreases text.len(),
{
    let at = first_position(text, separator);
    if 0 <= at < text.len() {
        seq![text.take(at)] + split_text(text.skip(at + 1), separator)
    } else {
        seq![text]
    }
}

/// The characters with the Unicode property White_Space.
pub open spec fn is_white_space(c: char) -> bool {
    let code = c as u32;
    ||| 0x9 <= code <= 0xD
    ||| code == 0x20
    ||| code == 0x85
    ||| code == 0xA0
    ||| code == 0x1680
    ||| 0x2000 <= code <= 0x200A
    ||| code == 0x2028
    ||| code == 0x2029
    ||| code == 0x202F
    ||| code == 0x205F
    ||| code == 0x3000
}

/// `text` without its leading white space.
pub open spec fn trim_start_text(text: Seq<char>) -> Seq<char>
    decreases text.len(),
{
    if text.len() > 0 && is_white_space(text[0]) {
        trim_start_text(text.drop_first())
    } else {
        text
    }
}

/// `text` without its trailing white space.
pub open spec fn trim_end_text(text: Seq<char>) -> Seq<char>
    decreases text.len(),
{
    if text.len() > 0 && is_white_space(text.last()) {
        trim_end_text(text.drop_last())
    } else {
        text
    }
}

/// `text` without the white space at both ends.
pub open spec fn trim_text(text: Seq<char>) -> Seq<char> {
    trim_end_text(trim_start_text(text))
}

/// The entries of a comma-separated list, each trimmed.
pub open spec fn comma_list(text: Seq<char>) -> Seq<Seq<char>> {
    split_text(text, ',').map_values(|piece: Seq<char>| trim_text(piece))
}

/// The lower-case hexadecimal digit of a value below sixteen.
pub open spec fn digit_char(value: int) -> char {
    if value == 0 {
        '0'
    } else if value == 1 {
        '1'
    } else if value == 2 {
        '2'
    } else if value == 3 {
        '3'
    } else if value == 4 {
        '4'
    } else if value == 5 {
        '5'
    } else if value == 6 {
        '6'
    } else if value == 7 {
        '7'
    } else if value == 8 {
        '8'
    } else if value == 9 {
        '9'
    } else if value == 10 {
        'a'
    } else if value == 11 {
        'b'
    } else if value == 12 {
        'c'
    } else if value == 13 {
        'd'
    } else if value == 14 {
        'e'
    } else {
        'f'
    }
}

/// The decimal digits of `n`, without leading zeros.
pub open spec fn decimal(n: nat) -> Seq<char>
    decreases n,
{
    if n < 10 {
        seq![digit_char(n as int)]
    } else {
        decimal(n / 10).push(digit_char((n % 10) as int))
    }
}

/// Four lower-case hexadecimal digits.
pub open spec fn hex4(n: u16) -> Seq<char> {
    seq![
        digit_char(n as int / 4096),
        digit_char(n as int / 256 % 16),
        digit_char(n as int / 16 % 16),
        digit_char(n as int % 16),
    ]
}

/// `c` is one of `0` to `9`.
pub open spec fn is_digit(c: char) -> bool {
    '0' <= c <= '9'
}

/// The number that a row of decimal digits stands for.
pub open spec fn decimal_value(digits: Seq<char>) -> nat
    decreases digits.len(),
{
    if digits.len() == 0 {
        0
    } else {
        (10 * decimal_value(digits.drop_last()) + (digits.last() as int - '0' as int)) as nat
    }
}

/// The digits of a number that may carry a leading `+`.
pub open spec fn without_plus(text: Seq<char>) -> Seq<char> {
    if text.len() > 0 && text[0] == '+' {
        text.drop_first()
    } else {
        text
    }
}

/// A channel index: decimal digits, at least one, with an optional leading `+`, for a
/// number that fits in sixteen bits.
pub open spec fn parsed_index(text: Seq<char>) -> Option<u16> {
    let digits = without_plus(text);
    if digits.len() > 0 && (forall|i: int| 0 <= i < digits.len() ==> is_digit(#[trigger] digits[i]))
        && decimal_value(digits) <= u16::MAX {
        Some(decimal_value(digits) as u16)
    } else {
        None
    }
}

/// Alphabetical order by code point: the order of `String`s.
pub open spec fn text_le(a: Seq<char>, b: Seq<char>) -> bool
    decreases a.len(),
{
    if a.len() == 0 {
        true
    } else if b.len() == 0 {
        false
    } else if a[0] != b[0] {
        a[0] < b[0]
    } else {
        text_le(a.drop_first(), b.drop_first())
    }
}

/// Each string of a list by its characters.
pub open spec fn texts(list: Seq<String>) -> Seq<Seq<char>> {
    list.map_values(|s: String| s@)
}

/// The text consists of ASCII characters.
pub open spec fn is_ascii_text(text: Seq<char>) -> bool {
    forall|i: int| 0 <= i < text.len() ==> (#[trigger] text[i] as u32) < 0x80
}

/// The character in lower case if it is one of `A` to `Z`, else the character itself.
pub open spec fn ascii_lower(c: char) -> char {
    if 'A' <= c <= 'Z' {
        (c as u32 + 32) as char
    } else {
        c
    }
}

/// The text with the letters `A` to `Z` in lower case.
pub open spec fn ascii_lowercase(text: Seq<char>) -> Seq<char> {
    text.map_values(|c: char| ascii_lower(c))
}

/// The text consists of printable ASCII characters without quotes and backslashes, which the
/// debug form shows as they are.
pub open spec fn is_plain_text(text: Seq<char>) -> bool {
    forall|i: int|
        0 <= i < text.len() ==> ' ' <= #[trigger] text[i] <= '~' && text[i] != '"' && text[i]
            != '\\'
}

/// Texts in double quotes with a comma and a space between them.
pub open spec fn quoted(list: Seq<Seq<char>>) -> Seq<char>
    decreases list.len(),
{
    if list.len() == 0 {
        Seq::empty()
    } else if list.len() == 1 {
        seq!['"'] + list[0] + seq!['"']
    } else {
        quoted(list.drop_last()) + seq![',', ' ', '"'] + list.last() + seq!['"']
    }
}

/// Each text is plain.
pub open spec fn are_plain_texts(list: Seq<Seq<char>>) -> bool {
    forall|i: int| 0 <= i < list.len() ==> is_plain_text(#[trigger] list[i])
}

/// What `str::to_lowercase` puts in the place of each character of a text.
pub uninterp spec fn lowercase(text: Seq<char>) -> Seq<Seq<char>>;

/// What the `{:?}` form of a list of strings is.
pub uninterp spec fn debug_list(list: Seq<Seq<char>>) -> Seq<char>;

/// What stands for the character at position `at` of a text in lower case: for an ASCII
/// character one character, whatever stands around it; for another what `others` has for it.
pub open spec fn lowered(text: Seq<char>, others: Seq<Seq<char>>, at: int) -> Seq<char> {
    if (text[at] as u32) < 0x80 {
        seq![ascii_lower(text[at])]
    } else {
        others[at]
    }
}

/// The first `count` characters of a text in lower case, one after the other.
pub open spec fn lowered_to(text: Seq<char>, others: Seq<Seq<char>>, count: int) -> Seq<char>
    decreases count,
{
    if count <= 0 {
        Seq::empty()
    } else {
        lowered_to(text, others, count - 1) + lowered(text, others, count - 1)
    }
}

/// The text in lower case.
pub open spec fn folded(text: Seq<char>) -> Seq<char> {
    lowered_to(text, lowercase(text), text.len() as int)
}

/// The debug form of a list of texts.
pub open spec fn listed(list: Seq<Seq<char>>) -> Seq<char> {
    if are_plain_texts(list) {
        seq!['['] + quoted(list) + seq![']']
    } else {
        debug_list(list)
    }
}

/// Calls `str::to_lowercase` of std: the characters of the text in lower case, one after the
/// other. Of the ASCII characters the letters `A` to `Z` change, one for one, and the others
/// stay. What becomes of another character depends on the text and its place in it alone, and
/// is not stated.
#[verifier::external_body]
pub(crate) fn to_lowercase(text: &str) -> (lower: String)
    ensures
        lower@ == lowered_to(text@, lowercase(text@), text@.len() as int),
{
    text.to_lowercase()
}

/// Calls `format!` of std with `{:?}` on a list of strings. Plain strings stand in it between
/// quotes. Of other strings the result depends on the strings alone; how their characters are
/// escaped is not stated.
#[verifier::external_body]
pub(crate) fn format_debug(list: &Vec<String>) -> (listing: String)
    ensures
        are_plain_texts(texts(list@)) ==> listing@ == seq!['['] + quoted(texts(list@)) + seq![']'],
        !are_plain_texts(texts(list@)) ==> listing@ == debug_list(texts(list@)),
{
    format!("{:?}", list)
}

/// The characters of `text`, in order.
pub fn chars_of(text: &str) -> (chars: Vec<char>)
    ensures
        chars@ == text@,
{
    let mut chars: Vec<char> = Vec::new();
    for c in it: text.chars()
        invariant
            chars@ == it.seq().take(it.index()),
            it.seq() == text@,
    {
        chars.push(c);
    }
    chars
}

/// Whether `part` stands at position `at` of `text`.
fn occurs(text: &Vec<char>, part: &Vec<char>, at: usize) -> (found: bool)
    requires
        at + part@.len() <= text@.len(),
    ensures
        found == occurs_at(text@, part@, at as int),
{
    let mut i: usize = 0;
    while i < part.len()
        invariant
            i <= part@.len(),
            at + part@.len() <= text.len(),
            forall|j: int| 0 <= j < i ==> text@[at + j] == part@[j],
        decreases part@.len() - i,
    {
        if text[at + i] != part[i] {
            assert(text@.subrange(at as int, at + part@.len())[i as int] != part@[i as int]);
            return false;
        }
        i += 1;
    }
    assert(text@.subrange(at as int, at + part@.len()) =~= part@);
    true
}

/// Whether `part` stands somewhere in `text`; the empty text stands everywhere.
pub fn contains(text: &str, part: &str) -> (found: bool)
    ensures
        found == contains_text(text@, part@),
{
    let text_chars = chars_of(text);
    let part_chars = chars_of(part);
    if part_chars.len() > text_chars.len() {
        return false;
    }
    let last: usize = text_chars.len() - part_chars.len();
    let mut at: usize = 0;
    loop
        invariant
            at <= last,
            last + part@.len() == text@.len(),
            text_chars@ == text@,
            part_chars@ == part@,
            forall|k: int| 0 <= k < at ==> !occurs_at(text@, part@, k),
        decreases last - at,
    {
        if occurs(&text_chars, &part_chars, at) {
            return true;
        }
        if at == last {
            return false;
        }
        at += 1;
    }
}

/// The first position is a position of `c` with no `c` before it, or the end of the text.
proof fn lemma_first_position(text: Seq<char>, c: char)
    ensures
        0 <= first_position(text, c) <= text.len(),
        forall|i: int| 0 <= i < first_position(text, c) ==> text[i] != c,
        first_position(text, c) < text.len() ==> text[first_position(text, c)] == c,
    decreases text.len(),
{
    if text.len() > 0 && text[0] != c {
        let rest = text.drop_first();
        lemma_first_position(rest, c);
        assert forall|i: int| 0 <= i < first_position(text, c) implies text[i] != c by {
            if i > 0 {
                assert(rest[i - 1] == text[i]);
            }
        }
    }
}

/// There is only one first position.
proof fn lemma_first_position_unique(text: Seq<char>, c: char, at: int)
    requires
        0 <= at <= text.len(),
        forall|i: int| 0 <= i < at ==> text[i] != c,
        at < text.len() ==> text[at] == c,
    ensures
        first_position(text, c) == at,
{
    lemma_first_position(text, c);
}

/// Whether `c` is white space.
fn white_space(c: char) -> (white: bool)
    ensures
        white == is_white_space(c),
{
    let code: u32 = c as u32;
    (0x9 <= code && code <= 0xD) || code == 0x20 || code == 0x85 || code == 0xA0 || code == 0x1680
        || (0x2000 <= code && code <= 0x200A) || code == 0x2028 || code == 0x2029 || code == 0x202F
        || code == 0x205F || code == 0x3000
}

proof fn lemma_trim_start_step(text: Seq<char>, at: int)
    requires
        0 <= at < text.len(),
        is_white_space(text[at]),
    ensures
        trim_start_text(text.skip(at)) == trim_start_text(text.skip(at + 1)),
{
    assert(text.skip(at).drop_first() =~= text.skip(at + 1));
}

/// `text` without the white space at both ends.
pub fn trim(text: &str) -> (trimmed: String)
    ensures
        trimmed@ == trim_text(text@),
{
    let chars = chars_of(text);
    let mut from: usize = 0;
    assert(text@.skip(0) =~= text@);
    while from < chars.len() && white_space(chars[from])
        invariant
            from <= chars@.len(),
            chars@ == text@,
            trim_start_text(text@) == trim_start_text(text@.skip(from as int)),
        decreases chars@.len() - from,
    {
        proof {
            lemma_trim_start_step(text@, from as int);
        }
        from += 1;
    }
    let mut to: usize = chars.len();
    let ghost start = text@.skip(from as int);
    assert(start =~= text@.subrange(from as int, to as int));
    assert(trim_start_text(text@) == start);
    while from < to && white_space(chars[to - 1])
        invariant
            from <= to <= chars@.len(),
            chars@ == text@,
            trim_end_text(start) == trim_end_text(text@.subrange(from as int, to as int)),
        decreases to - from,
    {
        proof {
            let part = text@.subrange(from as int, to as int);
            assert(part.drop_last() =~= text@.subrange(from as int, to - 1));
            assert(part.last() == chars@[to - 1]);
        }
        to -= 1;
    }
    proof {
        let part = text@.subrange(from as int, to as int);
        if part.len() > 0 {
            assert(part.last() == chars@[to - 1]);
        }
    }
    text.substring_char(from, to).to_owned()
}

/// The pieces of `text` between the commas.
pub fn split_commas(text: &str) -> (pieces: Vec<String>)
    ensures
        texts(pieces@) == split_text(text@, ','),
{
    let chars = chars_of(text);
    let mut pieces: Vec<String> = Vec::new();
    let mut from: usize = 0;
    let mut at: usize = 0;
    assert(text@.skip(0) =~= text@);
    assert(texts(pieces@) + split_text(text@, ',') =~= split_text(text@, ','));
    while at < chars.len()
        invariant
            from <= at <= chars@.len(),
            chars@ == text@,
            forall|i: int| from <= i < at ==> text@[i] != ',',
            split_text(text@, ',') == texts(pieces@) + split_text(text@.skip(from as int), ','),
        decreases chars@.len() - at,
    {
        if chars[at] == ',' {
            let ghost rest = text@.skip(from as int);
            let ghost before = pieces@;
            let piece = text.substring_char(from, at).to_owned();
            proof {
                lemma_first_position_unique(rest, ',', at - from);
                assert(rest.take(at - from) =~= piece@);
                assert(rest.skip(at - from + 1) =~= text@.skip(at + 1));
            }
            pieces.push(piece);
            proof {
                assert(texts(pieces@) =~= texts(before).push(piece@));
                assert(texts(pieces@) + split_text(text@.skip(at + 1), ',') =~= texts(before)
                    + split_text(rest, ','));
            }
            from = at + 1;
        }
        at += 1;
    }
    let ghost rest = text@.skip(from as int);
    let ghost before = pieces@;
    let piece = text.substring_char(from, at).to_owned();
    proof {
        lemma_first_position_unique(rest, ',', at - from);
        assert(rest =~= piece@);
    }
    pieces.push(piece);
    proof {
        assert(texts(pieces@) =~= texts(before) + split_text(rest, ','));
    }
    pieces
}

/// The trimmed entries of a comma-separated list.
pub fn split_trimmed(text: &str) -> (entries: Vec<String>)
    ensures
        texts(entries@) == comma_list(text@),
{
    let pieces = split_commas(text);
    let mut entries: Vec<String> = Vec::new();
    let mut i: usize = 0;
    while i < pieces.len()
        invariant
            i <= pieces@.len(),
            texts(pieces@) == split_text(text@, ','),
            entries@.len() == i,
            forall|j: int| 0 <= j < i ==> (#[trigger] entries@[j])@ == trim_text(pieces@[j]@),
        decreases pieces@.len() - i,
    {
        entries.push(trim(pieces[i].as_str()));
        i += 1;
    }
    proof {
        assert forall|j: int| 0 <= j < entries@.len() implies texts(entries@)[j] == comma_list(
            text@,
        )[j] by {
            assert(texts(pieces@)[j] == pieces@[j]@);
        }
        assert(texts(entries@).len() == texts(pieces@).len());
        assert(texts(entries@) =~= comma_list(text@));
    }
    entries
}

/// Appends one digit.
fn append_digit(text: &mut String, value: u64)
    requires
        value < 16,
    ensures
        final(text)@ == old(text)@.push(digit_char(value as int)),
{
    let digit = match value {
        0 => "0",
        1 => "1",
        2 => "2",
        3 => "3",
        4 => "4",
        5 => "5",
        6 => "6",
        7 => "7",
        8 => "8",
        9 => "9",
        10 => "a",
        11 => "b",
        12 => "c",
        13 => "d",
        14 => "e",
        _ => "f",
    };
    proof {
        reveal_strlit("0");
        reveal_strlit("1");
        reveal_strlit("2");
        reveal_strlit("3");
        reveal_strlit("4");
        reveal_strlit("5");
        reveal_strlit("6");
        reveal_strlit("7");
        reveal_strlit("8");
        reveal_strlit("9");
        reveal_strlit("a");
        reveal_strlit("b");
        reveal_strlit("c");
        reveal_strlit("d");
        reveal_strlit("e");
        reveal_strlit("f");
    }
    assert(digit@ =~= seq![digit_char(value as int)]);
    text.append(digit);
}

/// Appends a number in decimal.
pub fn append_decimal(text: &mut String, n: u64)
    ensures
        final(text)@ == old(text)@ + decimal(n as nat),
    decreases n,
{
    if n >= 10 {
        append_decimal(text, n / 10);
    }
    append_digit(text, n % 10);
    assert(final(text)@ =~= old(text)@ + decimal(n as nat));
}

/// Appends a number as four hexadecimal digits.
pub fn append_hex4(text: &mut String, n: u16)
    ensures
        final(text)@ == old(text)@ + hex4(n),
{
    append_digit(text, n as u64 / 4096);
    append_digit(text, n as u64 / 256 % 16);
    append_digit(text, n as u64 / 16 % 16);
    append_digit(text, n as u64 % 16);
    assert(text@ =~= old(text)@ + hex4(n));
}

/// A row of digits stands for at least as much as the rows it begins with.
proof fn lemma_decimal_value_prefix(digits: Seq<char>, n: int)
    requires
        0 <= n <= digits.len(),
        forall|i: int| 0 <= i < digits.len() ==> is_digit(#[trigger] digits[i]),
    ensures
        decimal_value(digits.take(n)) <= decimal_value(digits),
    decreases digits.len(),
{
    if n == digits.len() {
        assert(digits.take(n) =~= digits);
    } else {
        let shorter = digits.drop_last();
        assert(digits.take(n) =~= shorter.take(n));
        assert forall|i: int| 0 <= i < shorter.len() implies is_digit(#[trigger] shorter[i]) by {
            assert(shorter[i] == digits[i]);
        }
        lemma_decimal_value_prefix(shorter, n);
        assert(is_digit(digits[digits.len() - 1]));
    }
}

/// Reads a channel index.
pub fn parse_index(text: &str) -> (index: Option<u16>)
    ensures
        index == parsed_index(text@),
{
    let chars = chars_of(text);
    let ghost digits = without_plus(text@);
    let mut at: usize = 0;
    if chars.len() > 0 && chars[0] == '+' {
        at = 1;
    }
    let skipped: usize = at;
    if at == chars.len() {
        return None;
    }
    assert(digits =~= text@.skip(skipped as int));
    assert(digits.take(0) =~= Seq::<char>::empty());
    let mut value: u32 = 0;
    while at < chars.len()
        invariant
            skipped <= at <= chars@.len(),
            skipped <= 1,
            chars@ == text@,
            digits == without_plus(text@),
            digits == text@.skip(skipped as int),
            digits.len() > 0,
            value <= u16::MAX,
            value == decimal_value(digits.take(at - skipped)),
            forall|i: int| 0 <= i < at - skipped ==> is_digit(#[trigger] digits[i]),
        decreases chars@.len() - at,
    {
        let c = chars[at];
        assert(digits[at - skipped] == c);
        if c < '0' || c > '9' {
            assert(!is_digit(digits[at - skipped]));
            return None;
        }
        value = 10 * value + (c as u32 - '0' as u32);
        at += 1;
        proof {
            let read = digits.take(at - skipped);
            assert(read.drop_last() =~= digits.take(at - skipped - 1));
            assert(read.last() == c);
        }
        if value > 65535 {
            proof {
                if forall|i: int| 0 <= i < digits.len() ==> is_digit(#[trigger] digits[i]) {
                    lemma_decimal_value_prefix(digits, at - skipped);
                }
            }
            return None;
        }
    }
    assert(digits.take(at - skipped) =~= digits);
    Some(value as u16)
}

/// Whether `a` comes before `b` or equals it.
pub fn text_at_most(a: &str, b: &str) -> (le: bool)
    ensures
        le == text_le(a@, b@),
{
    let a_chars = chars_of(a);
    let b_chars = chars_of(b);
    let mut i: usize = 0;
    assert(a@.skip(0) =~= a@);
    assert(b@.skip(0) =~= b@);
    while i < a_chars.len() && i < b_chars.len()
        invariant
            i <= a_chars@.len(),
            i <= b_chars@.len(),
            a_chars@ == a@,
            b_chars@ == b@,
            text_le(a@, b@) == text_le(a@.skip(i as int), b@.skip(i as int)),
        decreases a_chars@.len() - i,
    {
        assert(a@.skip(i as int)[0] == a_chars@[i as int]);
        assert(b@.skip(i as int)[0] == b_chars@[i as int]);
        if a_chars[i] != b_chars[i] {
            return a_chars[i] < b_chars[i];
        }
        assert(a@.skip(i as int).drop_first() =~= a@.skip(i + 1));
        assert(b@.skip(i as int).drop_first() =~= b@.skip(i + 1));
        i += 1;
    }
    i == a_chars.len()
}

/// Reading back the decimal digits of a number gives the number.
pub proof fn law_decimal_reads_back(n: nat)
    ensures
        decimal_value(decimal(n)) == n,
        decimal(n).len() > 0,
        forall|i: int| 0 <= i < decimal(n).len() ==> is_digit(#[trigger] decimal(n)[i]),
    decreases n,
{
    reveal_with_fuel(decimal_value, 2);
    if n >= 10 {
        let head = decimal(n / 10);
        law_decimal_reads_back(n / 10);
        assert(decimal(n).drop_last() =~= head);
        assert forall|i: int| 0 <= i < decimal(n).len() implies is_digit(#[trigger] decimal(n)[i]) by {
            if i < head.len() {
                assert(decimal(n)[i] == head[i]);
            }
        }
    } else {
        assert(decimal(n).drop_last() =~= Seq::<char>::empty());
    }
}

/// Every channel index can be written in decimal and read back.
pub proof fn law_index_reads_back(index: u16)
    ensures
        parsed_index(decimal(index as nat)) == Some(index),
{
    law_decimal_reads_back(index as nat);
    let digits = decimal(index as nat);
    assert(is_digit(digits[0]));
    assert(without_plus(digits) == digits);
}

/// Alphabetical order is total.
pub proof fn law_text_order_total(a: Seq<char>, b: Seq<char>)
    ensures
        text_le(a, b) || text_le(b, a),
    decreases a.len(),
{
    if a.len() > 0 && b.len() > 0 && a[0] == b[0] {
        law_text_order_total(a.drop_first(), b.drop_first());
    }
}

/// Alphabetical order is transitive.
pub proof fn law_text_order_transitive(a: Seq<char>, b: Seq<char>, c: Seq<char>)
    requires
        text_le(a, b),
        text_le(b, c),
    ensures
        text_le(a, c),
    decreases a.len(),
{
    if a.len() > 0 && b.len() > 0 && c.len() > 0 && a[0] == b[0] && b[0] == c[0] {
        law_text_order_transitive(a.drop_first(), b.drop_first(), c.drop_first());
    }
}

proof fn lemma_no_comma(text: Seq<char>)
    requires
        forall|i: int| 0 <= i < text.len() ==> #[trigger] text[i] != ',',
    ensures
        split_text(text, ',') == seq![text],
{
    lemma_first_position_unique(text, ',', text.len() as int);
}

proof fn lemma_nothing_to_trim(text: Seq<char>)
    requires
        text.len() > 0,
        !is_white_space(text[0]),
        !is_white_space(text.last()),
    ensures
        trim_text(text) == text,
{
}

/// A list of a single index has that index as its only entry.
pub proof fn law_single_index_list(index: u16)
    ensures
        comma_list(decimal(index as nat)) == seq![decimal(index as nat)],
{
    let digits = decimal(index as nat);
    law_decimal_reads_back(index as nat);
    assert forall|i: int| 0 <= i < digits.len() implies #[trigger] digits[i] != ',' by {
        assert(is_digit(digits[i]));
    }
    lemma_no_comma(digits);
    assert(is_digit(digits[0]));
    assert(is_digit(digits[digits.len() - 1]));
    lemma_nothing_to_trim(digits);
    assert(comma_list(digits) =~= seq![digits]);
}

/// The lower-case form begins with that of the first characters.
proof fn lemma_folded_begins(text: Seq<char>, others: Seq<Seq<char>>, from: int, to: int)
    requires
        0 <= from <= to,
    ensures
        lowered_to(text, others, from).is_prefix_of(lowered_to(text, others, to)),
    decreases to - from,
{
    if from < to {
        lemma_folded_begins(text, others, from, to - 1);
    }
}

/// After the lower-case form of what stands before an ASCII part comes the lowered part.
proof fn lemma_folded_part(
    text: Seq<char>,
    others: Seq<Seq<char>>,
    part: Seq<char>,
    at: int,
    count: int,
)
    requires
        occurs_at(text, part, at),
        is_ascii_text(part),
        0 <= count <= part.len(),
    ensures
        lowered_to(text, others, at + count) == lowered_to(text, others, at) + ascii_lowercase(part.take(count)),
    decreases count,
{
    if count == 0 {
        assert(ascii_lowercase(part.take(0)) =~= Seq::<char>::empty());
        assert(lowered_to(text, others, at) + Seq::<char>::empty() =~= lowered_to(text, others, at));
    } else {
        lemma_folded_part(text, others, part, at, count - 1);
        let c = part[count - 1];
        assert(text.subrange(at, at + part.len())[count - 1] == text[at + count - 1]);
        assert((c as u32) < 0x80);
        assert(ascii_lowercase(part.take(count)) =~= ascii_lowercase(part.take(count - 1))
            + seq![ascii_lower(c)]);
        assert(lowered_to(text, others, at + count) =~= lowered_to(text, others, at) + ascii_lowercase(
            part.take(count),
        ));
    }
}

/// An ASCII part of any text stands in its lower-case form with its letters lowered.
pub proof fn law_ascii_part_is_lowered(text: Seq<char>, part: Seq<char>)
    requires
        contains_text(text, part),
        is_ascii_text(part),
    ensures
        contains_text(folded(text), ascii_lowercase(part)),
{
    let at = choose|at: int| occurs_at(text, part, at);
    let others = lowercase(text);
    let end = at + part.len();
    lemma_folded_part(text, others, part, at, part.len() as int);
    lemma_folded_begins(text, others, end, text.len() as int);
    let low = ascii_lowercase(part);
    let from = lowered_to(text, others, at).len() as int;
    assert(part.take(part.len() as int) =~= part);
    assert(lowered_to(text, others, end) == lowered_to(text, others, at) + low);
    let head = lowered_to(text, others, end);
    assert(head == folded(text).subrange(0, head.len() as int));
    assert(folded(text).subrange(from, from + low.len()) =~= low) by {
        assert forall|i: int| 0 <= i < low.len() implies folded(text)[from + i] == low[i] by {
            assert(head[from + i] == low[i]);
            assert(folded(text).subrange(0, head.len() as int)[from + i] == folded(text)[from + i]);
        }
    }
    assert(occurs_at(folded(text), low, from));
}

/// Of ASCII text the lower-case form is the text with its letters lowered.
pub proof fn law_ascii_text_is_lowered(text: Seq<char>)
    requires
        is_ascii_text(text),
    ensures
        folded(text) == ascii_lowercase(text),
{
    assert(text.subrange(0, text.len() as int) =~= text);
    lemma_folded_part(text, lowercase(text), text, 0, text.len() as int);
    assert(text.take(text.len() as int) =~= text);
    assert(folded(text) =~= ascii_lowercase(text));
}

/// A text holds a part if and only if the part stands between two other texts.
pub proof fn law_contains_means_between(text: Seq<char>, part: Seq<char>)
    ensures
        contains_text(text, part) <==> exists|a: Seq<char>, b: Seq<char>|
            text == #[trigger] (a + part + b),
{
    if contains_text(text, part) {
        let at = choose|at: int| occurs_at(text, part, at);
        let a = text.take(at);
        let b = text.skip(at + part.len());
        assert(text =~= a + part + b) by {
            assert forall|i: int| 0 <= i < text.len() implies text[i] == (a + part + b)[i] by {
                if at <= i < at + part.len() {
                    assert(text.subrange(at, at + part.len())[i - at] == text[i]);
                }
            }
        }
    }
    if exists|a: Seq<char>, b: Seq<char>| text == #[trigger] (a + part + b) {
        let (a, b) = choose|a: Seq<char>, b: Seq<char>| text == #[trigger] (a + part + b);
        assert(text.subrange(a.len() as int, (a.len() + part.len()) as int) =~= part);
        assert(occurs_at(text, part, a.len() as int));
    }
}

/// The pieces with a separator between each two.
pub open spec fn rejoined(pieces: Seq<Seq<char>>, separator: char) -> Seq<char>
    decreases pieces.len(),
{
    if pieces.len() == 0 {
        Seq::empty()
    } else if pieces.len() == 1 {
        pieces[0]
    } else {
        pieces[0] + seq![separator] + rejoined(pieces.drop_first(), separator)
    }
}

/// The pieces of a text hold no separator, and with separators between them they make up the
/// text again.
pub proof fn law_pieces_rejoin(text: Seq<char>, separator: char)
    ensures
        split_text(text, separator).len() > 0,
        forall|i: int|
            0 <= i < split_text(text, separator).len() ==> !(#[trigger] split_text(
                text,
                separator,
            )[i]).contains(separator),
        rejoined(split_text(text, separator), separator) == text,
    decreases text.len(),
{
    lemma_first_position(text, separator);
    let at = first_position(text, separator);
    let pieces = split_text(text, separator);
    if at < text.len() {
        let rest = text.skip(at + 1);
        let later = split_text(rest, separator);
        law_pieces_rejoin(rest, separator);
        assert(pieces =~= seq![text.take(at)] + later);
        assert(pieces.drop_first() =~= later);
        assert(!text.take(at).contains(separator));
        assert forall|i: int| 0 <= i < pieces.len() implies !(#[trigger] pieces[i]).contains(
            separator,
        ) by {
            if i > 0 {
                assert(pieces[i] == later[i - 1]);
            }
        }
        assert(rejoined(pieces, separator) =~= text);
    } else {
        assert(pieces =~= seq![text]);
        assert(!text.contains(separator));
    }
}

/// White space are the tabs and line breaks, the spaces of all widths and the separators of
/// lines and paragraphs.
pub proof fn law_white_space(c: char)
    ensures
        is_white_space(c) <==> seq![
            0x9u32,
            0xA,
            0xB,
            0xC,
            0xD,
            0x20,
            0x85,
            0xA0,
            0x1680,
            0x2000,
            0x2001,
            0x2002,
            0x2003,
            0x2004,
            0x2005,
            0x2006,
            0x2007,
            0x2008,
            0x2009,
            0x200A,
            0x2028,
            0x2029,
            0x202F,
            0x205F,
            0x3000,
        ].contains(c as u32),
{
    let all = seq![
        0x9u32,
        0xA,
        0xB,
        0xC,
        0xD,
        0x20,
        0x85,
        0xA0,
        0x1680,
        0x2000,
        0x2001,
        0x2002,
        0x2003,
        0x2004,
        0x2005,
        0x2006,
        0x2007,
        0x2008,
        0x2009,
        0x200A,
        0x2028,
        0x2029,
        0x202F,
        0x205F,
        0x3000,
    ];
    let code = c as u32;
    if is_white_space(c) {
        let k = if code <= 0xD {
            code - 9
        } else if code == 0x20 {
            5
        } else if code == 0x85 {
            6
        } else if code == 0xA0 {
            7
        } else if code == 0x1680 {
            8
        } else if code <= 0x200A {
            code - 0x2000 + 9
        } else if code == 0x2028 {
            20
        } else if code == 0x2029 {
            21
        } else if code == 0x202F {
            22
        } else if code == 0x205F {
            23
        } else {
            24int
        };
        assert(all[k] == code);
    }
}

/// The text consists of white space.
pub open spec fn is_blank(text: Seq<char>) -> bool {
    forall|i: int| 0 <= i < text.len() ==> is_white_space(#[trigger] text[i])
}

/// Trimming takes white space from both ends and nothing else, as much as there is.
pub proof fn law_trim_takes_white_space(text: Seq<char>)
    ensures
        exists|a: Seq<char>, b: Seq<char>|
            text == #[trigger] (a + trim_text(text) + b) && is_blank(a) && is_blank(b),
        trim_text(text).len() > 0 ==> !is_white_space(trim_text(text)[0]) && !is_white_space(
            trim_text(text).last(),
        ),
{
    let start = trim_start_text(text);
    lemma_trim_start(text);
    lemma_trim_end(start);
    let a = choose|a: Seq<char>| text == #[trigger] (a + start) && is_blank(a);
    let b = choose|b: Seq<char>| start == #[trigger] (trim_text(text) + b) && is_blank(b);
    assert(text =~= a + trim_text(text) + b);
    if trim_text(text).len() > 0 {
        assert(trim_text(text)[0] == start[0]);
    }
}

proof fn lemma_trim_start(text: Seq<char>)
    ensures
        exists|a: Seq<char>| text == #[trigger] (a + trim_start_text(text)) && is_blank(a),
        trim_start_text(text).len() > 0 ==> !is_white_space(trim_start_text(text)[0]),
    decreases text.len(),
{
    if text.len() > 0 && is_white_space(text[0]) {
        let rest = text.drop_first();
        lemma_trim_start(rest);
        let a = choose|a: Seq<char>| rest == #[trigger] (a + trim_start_text(rest)) && is_blank(a);
        let more = seq![text[0]] + a;
        assert(text =~= seq![text[0]] + rest);
        assert(trim_start_text(text) == trim_start_text(rest));
        assert(text =~= more + trim_start_text(text));
        assert(is_blank(more)) by {
            assert forall|i: int| 0 <= i < more.len() implies is_white_space(#[trigger] more[i]) by {
                if i > 0 {
                    assert(more[i] == a[i - 1]);
                }
            }
        }
    } else {
        let none = Seq::<char>::empty();
        assert(text =~= none + trim_start_text(text));
        assert(is_blank(none));
    }
}

proof fn lemma_trim_end(text: Seq<char>)
    ensures
        exists|b: Seq<char>| text == #[trigger] (trim_end_text(text) + b) && is_blank(b),
        trim_end_text(text).len() > 0 ==> !is_white_space(trim_end_text(text).last()),
    decreases text.len(),
{
    if text.len() > 0 && is_white_space(text.last()) {
        let rest = text.drop_last();
        lemma_trim_end(rest);
        let b = choose|b: Seq<char>| rest == #[trigger] (trim_end_text(rest) + b) && is_blank(b);
        let more = b.push(text.last());
        assert(text =~= rest.push(text.last()));
        assert(trim_end_text(text) == trim_end_text(rest));
        assert(text =~= trim_end_text(text) + more);
        assert(is_blank(more)) by {
            assert forall|i: int| 0 <= i < more.len() implies is_white_space(#[trigger] more[i]) by {
                if i < b.len() {
                    assert(more[i] == b[i]);
                }
            }
        }
    } else {
        let none = Seq::<char>::empty();
        assert(text =~= trim_end_text(text) + none);
        assert(is_blank(none));
    }
}

/// A comma list has an entry for every piece between commas: the piece without its white
/// space at both ends.
pub proof fn law_list_entries(text: Seq<char>, i: int)
    requires
        0 <= i < split_text(text, ',').len(),
    ensures
        comma_list(text).len() == split_text(text, ',').len(),
        comma_list(text)[i] == trim_text(split_text(text, ',')[i]),
{
}

/// The digits of a number in decimal are those of its decimal places, from the highest that
/// counts to the lowest.
pub proof fn law_decimal_places(n: nat)
    ensures
        decimal(n).len() > 0,
        n < vstd::arithmetic::power::pow(10, decimal(n).len()),
        n > 0 ==> vstd::arithmetic::power::pow(10, (decimal(n).len() - 1) as nat) <= n,
        n == 0 ==> decimal(n).len() == 1,
        forall|i: int|
            0 <= i < decimal(n).len() ==> (#[trigger] decimal(n)[i]) as int == 48 + (n as int
                / vstd::arithmetic::power::pow(10, (decimal(n).len() - 1 - i) as nat)) % 10,
    decreases n,
{
    let text = decimal(n);
    vstd::arithmetic::power::lemma_pow0(10);
    vstd::arithmetic::power::lemma_pow1(10);
    if n < 10 {
        assert forall|i: int| 0 <= i < text.len() implies (#[trigger] text[i]) as int == 48 + (n as int
            / vstd::arithmetic::power::pow(10, (text.len() - 1 - i) as nat)) % 10 by {
            assert(i == 0);
        }
    } else {
        let head = decimal(n / 10);
        let size = head.len();
        law_decimal_places(n / 10);
        reveal(vstd::arithmetic::power::pow);
        let top = vstd::arithmetic::power::pow(10, size);
        assert(vstd::arithmetic::power::pow(10, size + 1) == 10 * top);
        assert(top == 10 * vstd::arithmetic::power::pow(10, (size - 1) as nat));
        assert forall|i: int| 0 <= i < text.len() implies (#[trigger] text[i]) as int == 48 + (n as int
            / vstd::arithmetic::power::pow(10, (text.len() - 1 - i) as nat)) % 10 by {
            if i < size {
                assert(text[i] == head[i]);
                let low = vstd::arithmetic::power::pow(10, (size - 1 - i) as nat);
                vstd::arithmetic::power::lemma_pow_positive(10, (size - 1 - i) as nat);
                assert(vstd::arithmetic::power::pow(10, (size - i) as nat) == 10 * low);
                vstd::arithmetic::div_mod::lemma_div_denominator(n as int, 10, low);
            } else {
                assert(vstd::arithmetic::power::pow(10, 0) == 1);
            }
        }
    }
}

/// The value of a hexadecimal digit.
pub open spec fn hex_value(c: char) -> int {
    if c <= '9' {
        c as int - 48
    } else {
        c as int - 87
    }
}

/// Four lower-case hexadecimal digits make up the number, the highest first.
pub proof fn law_hex_digits(n: u16)
    ensures
        hex4(n).len() == 4,
        forall|i: int|
            0 <= i < 4 ==> ('0' <= #[trigger] hex4(n)[i] <= '9' || 'a' <= hex4(n)[i] <= 'f'),
        n == 4096 * hex_value(hex4(n)[0]) + 256 * hex_value(hex4(n)[1]) + 16 * hex_value(
            hex4(n)[2],
        ) + hex_value(hex4(n)[3]),
{
    lemma_hex_digit(n as int / 4096);
    lemma_hex_digit(n as int / 256 % 16);
    lemma_hex_digit(n as int / 16 % 16);
    lemma_hex_digit(n as int % 16);
}

proof fn lemma_hex_digit(value: int)
    requires
        0 <= value < 16,
    ensures
        '0' <= digit_char(value) <= '9' || 'a' <= digit_char(value) <= 'f',
        hex_value(digit_char(value)) == value,
{
}

/// An index of a single character is that digit, with or without a plus before it, and the
/// empty text is no index.
pub proof fn law_index_of_one_digit(c: char)
    ensures
        parsed_index(Seq::empty()) is None,
        parsed_index(seq![c]) == (if '0' <= c <= '9' {
            Some((c as int - 48) as u16)
        } else {
            None
        }),
        parsed_index(seq!['+', c]) == (if '0' <= c <= '9' {
            Some((c as int - 48) as u16)
        } else {
            None
        }),
{
    reveal_with_fuel(decimal_value, 2);
    let one = seq![c];
    assert(seq!['+', c].drop_first() =~= one);
    assert(one.drop_last() =~= Seq::<char>::empty());
    if '0' <= c <= '9' {
        assert(decimal_value(one) == c as int - 48);
        assert(is_digit(one[0]));
    } else if c != '+' {
        assert(!is_digit(one[0]));
    } else {
        assert(one.drop_first() =~= Seq::<char>::empty());
        assert(!is_digit(one[0]));
    }
}

/// One more digit makes an index ten times as large and adds the digit, as long as it fits in
/// sixteen bits; after anything else, and after what is no index, there is no index.
pub proof fn law_index_grows_by_digits(text: Seq<char>, c: char)
    requires
        text.len() > 0,
        text != seq!['+'],
    ensures
        match parsed_index(text) {
            Some(v) => parsed_index(text.push(c)) == (if '0' <= c <= '9' && 10 * v + (c as int - 48)
                <= 65535 {
                Some((10 * v + (c as int - 48)) as u16)
            } else {
                None
            }),
            None => parsed_index(text.push(c)) is None,
        },
{
    let more = text.push(c);
    let digits = without_plus(text);
    let longer = without_plus(more);
    if text.len() == 1 && text[0] == '+' {
        assert(text =~= seq!['+']);
    }
    assert(longer =~= digits.push(c));
    assert(digits.len() > 0);
    assert(longer.drop_last() =~= digits);
    assert(forall|i: int| 0 <= i < digits.len() ==> longer[i] == digits[i]);
    if forall|i: int| 0 <= i < longer.len() ==> is_digit(#[trigger] longer[i]) {
        assert forall|i: int| 0 <= i < digits.len() implies is_digit(#[trigger] digits[i]) by {
            assert(is_digit(longer[i]));
        }
        assert(is_digit(longer[digits.len() as int]));
    } else if is_digit(c) {
        let i = choose|i: int| 0 <= i < longer.len() && !is_digit(#[trigger] longer[i]);
        assert(!is_digit(digits[i]));
    }
    assert(!is_digit(c) ==> !is_digit(longer[digits.len() as int]));
    if parsed_index(text) is Some && is_digit(c) {
        assert forall|i: int| 0 <= i < longer.len() implies is_digit(#[trigger] longer[i]) by {
            if i < digits.len() {
                assert(is_digit(digits[i]));
            }
        }
    }
}

/// A text comes before another, or equals it, if it is its beginning or has the smaller
/// character where the two first differ, and only then.
pub proof fn law_text_order(a: Seq<char>, b: Seq<char>)
    ensures
        text_le(a, b) <==> (a.is_prefix_of(b) || exists|k: int|
            0 <= k < a.len() && k < b.len() && a.take(k) == b.take(k) && #[trigger] a[k] < b[k]),
    decreases a.len(),
{
    if a.len() == 0 {
        assert(a =~= b.subrange(0, 0));
    } else if b.len() == 0 {
    } else if a[0] != b[0] {
        if a[0] < b[0] {
            assert(a.take(0) =~= b.take(0));
        } else {
            if a.is_prefix_of(b) {
                assert(b.subrange(0, a.len() as int)[0] == b[0]);
            }
            assert forall|k: int|
                0 <= k < a.len() && k < b.len() && a.take(k) == b.take(k) implies !(#[trigger] a[k]
                < b[k]) by {
                if k > 0 {
                    assert(a.take(k)[0] == b.take(k)[0]);
                }
            }
        }
    } else {
        let x = a.drop_first();
        let y = b.drop_first();
        law_text_order(x, y);
        if x.is_prefix_of(y) {
            assert(a =~= b.subrange(0, a.len() as int)) by {
                assert forall|i: int| 0 <= i < a.len() implies a[i] == b[i] by {
                    if i > 0 {
                        assert(x[i - 1] == y.subrange(0, x.len() as int)[i - 1]);
                    }
                }
            }
        }
        if a.is_prefix_of(b) {
            assert(x =~= y.subrange(0, x.len() as int)) by {
                assert forall|i: int| 0 <= i < x.len() implies x[i] == y[i] by {
                    assert(a[i + 1] == b.subrange(0, a.len() as int)[i + 1]);
                }
            }
        }
        if exists|k: int|
            0 <= k < x.len() && k < y.len() && x.take(k) == y.take(k) && #[trigger] x[k] < y[k] {
            let k = choose|k: int|
                0 <= k < x.len() && k < y.len() && x.take(k) == y.take(k) && #[trigger] x[k] < y[k];
            assert(a.take(k + 1) =~= b.take(k + 1)) by {
                assert forall|i: int| 0 <= i < k + 1 implies a[i] == b[i] by {
                    if i > 0 {
                        assert(x.take(k)[i - 1] == y.take(k)[i - 1]);
                    }
                }
            }
            assert(a[k + 1] < b[k + 1]);
        }
        if exists|k: int|
            0 <= k < a.len() && k < b.len() && a.take(k) == b.take(k) && #[trigger] a[k] < b[k] {
            let k = choose|k: int|
                0 <= k < a.len() && k < b.len() && a.take(k) == b.take(k) && #[trigger] a[k] < b[k];
            assert(k > 0);
            assert(x.take(k - 1) =~= y.take(k - 1)) by {
                assert forall|i: int| 0 <= i < k - 1 implies x[i] == y[i] by {
                    assert(a.take(k)[i + 1] == b.take(k)[i + 1]);
                }
            }
            assert(x[k - 1] < y[k - 1]);
        }
    }
}

/// A list of strings shows the characters of each in its place.
pub proof fn law_texts_show_characters(list: Seq<String>)
    ensures
        texts(list).len() == list.len(),
        forall|i: int| 0 <= i < list.len() ==> texts(list)[i] == (#[trigger] list[i])@,
{
}

} // verus!
