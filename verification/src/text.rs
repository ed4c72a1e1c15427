//! Text building blocks: decimal and JSON rendering, display truncation, and
//! the searches that decide whether a text names a location.

use vstd::prelude::*;

verus! {

/// The longest detail text shown for one metadata item, in characters.
pub const MAX_DETAIL_CHARS: usize = 160;

/// `String::push` appends one character to the end of the text.
pub assume_specification[ String::push ](s: &mut String, c: char)
    ensures
        final(s)@ == old(s)@.push(c),
;

/// A result whose value and error are taken by their views.
pub open spec fn outcome<T: View>(result: Result<T, String>) -> Result<T::V, Seq<char>> {
    match result {
        Ok(value) => Ok(value@),
        Err(error) => Err(error@),
    }
}

/// The decimal digit for `n`, which is below ten.
pub open spec fn digit(n: nat) -> char {
    ('0' as nat + n) as char
}

/// `n` in decimal, without leading zeros.
pub open spec fn decimal(n: nat) -> Seq<char>
    decreases n,
{
    if n < 10 {
        seq![digit(n)]
    } else {
        decimal(n / 10).push(digit(n % 10))
    }
}

/// `n` in decimal with a leading minus sign when it is negative.
pub open spec fn signed_decimal(n: int) -> Seq<char> {
    if n < 0 {
        seq!['-'] + decimal((-n) as nat)
    } else {
        decimal(n as nat)
    }
}

/// `text` padded on the left with zeros to at least `width` characters.
pub open spec fn zero_padded(text: Seq<char>, width: nat) -> Seq<char> {
    if text.len() >= width {
        text
    } else {
        Seq::new((width - text.len()) as nat, |i: int| '0') + text
    }
}

fn digit_char(n: u8) -> (c: char)
    requires
        n < 10,
    ensures
        c == digit(n as nat),
{
    (48u8 + n) as char
}

/// Render a number in decimal.
pub fn decimal_text(n: u64) -> (text: String)
    ensures
        text@ == decimal(n as nat),
    decreases n,
{
    if n < 10 {
        let mut text = String::new();
        text.push(digit_char(n as u8));
        assert(text@ =~= seq![digit(n as nat)]);
        text
    } else {
        let mut text = decimal_text(n / 10);
        text.push(digit_char((n % 10) as u8));
        text
    }
}

/// Render a signed number in decimal.
pub fn signed_decimal_text(n: i64) -> (text: String)
    ensures
        text@ == signed_decimal(n as int),
{
    if n < 0 {
        let magnitude: u64 = if n == i64::MIN {
            9_223_372_036_854_775_808
        } else {
            (-n) as u64
        };
        let mut text = String::new();
        text.push('-');
        text.append(decimal_text(magnitude).as_str());
        assert(text@ =~= seq!['-'] + decimal((-n) as nat));
        text
    } else {
        decimal_text(n as u64)
    }
}

/// Render a number in decimal, padded with zeros to at least `width` digits.
pub fn padded_decimal_text(n: u64, width: usize) -> (text: String)
    ensures
        text@ == zero_padded(decimal(n as nat), width as nat),
{
    let digits = decimal_text(n);
    let length = digits.as_str().unicode_len();
    let mut text = String::new();
    if length < width {
        let missing: usize = width - length;
        let mut i: usize = 0;
        while i < missing
            invariant
                i <= missing,
                text@ == Seq::new(i as nat, |j: int| '0'),
            decreases missing - i,
        {
            text.push('0');
            i += 1;
            assert(text@ =~= Seq::new(i as nat, |j: int| '0'));
        }
    }
    assert(text@ + digits@ =~= zero_padded(digits@, width as nat));
    text.append(digits.as_str());
    text
}

/// Whether two texts are the same.
pub fn same_text(left: &str, right: &str) -> (same: bool)
    ensures
        same == (left@ == right@),
{
    left.to_owned() == right.to_owned()
}

/// The characters of a text.
pub fn characters(text: &str) -> (chars: Vec<char>)
    ensures
        chars@ == text@,
{
    let mut chars: Vec<char> = Vec::new();
    for c in it: text.chars()
        invariant
            chars@ == it.seq().take(it.index() as int),
            it.seq() == text@,
    {
        assert(it.seq().take(it.index() as int).push(c) == it.seq().take(it.index() + 1));
        chars.push(c);
    }
    chars
}

/// The text made of `chars[from..to]`.
pub fn text_between(chars: &Vec<char>, from: usize, to: usize) -> (text: String)
    requires
        from <= to <= chars@.len(),
    ensures
        text@ == chars@.subrange(from as int, to as int),
{
    let mut text = String::new();
    let mut i: usize = from;
    while i < to
        invariant
            from <= i <= to <= chars@.len(),
            text@ == chars@.subrange(from as int, i as int),
        decreases to - i,
    {
        text.push(chars[i]);
        i += 1;
        assert(text@ =~= chars@.subrange(from as int, i as int));
    }
    text
}

/// `text` followed by `more`.
pub fn joined(text: &str, more: &str) -> (both: String)
    ensures
        both@ == text@ + more@,
{
    let mut both = text.to_owned();
    both.append(more);
    both
}

/// Limit a text to the display length, marking the cut with an ellipsis.
pub open spec fn truncated(text: Seq<char>) -> Seq<char> {
    if text.len() <= MAX_DETAIL_CHARS {
        text
    } else {
        text.take(MAX_DETAIL_CHARS as int).push('…')
    }
}

/// Limit a text to the display length, marking the cut with an ellipsis.
pub fn truncate_detail(value: &str) -> (text: String)
    ensures
        text@ == truncated(value@),
{
    let chars = characters(value);
    if chars.len() <= MAX_DETAIL_CHARS {
        value.to_owned()
    } else {
        let mut text = text_between(&chars, 0, MAX_DETAIL_CHARS);
        text.push('…');
        text
    }
}

/// The hexadecimal digit for `n`, which is below sixteen.
pub open spec fn hex_digit(n: nat) -> char {
    if n < 10 {
        ('0' as nat + n) as char
    } else {
        ('a' as nat + (n - 10)) as char
    }
}

/// One character inside a JSON string literal.
pub open spec fn json_escape(c: char) -> Seq<char> {
    if c == '"' {
        "\\\""@
    } else if c == '\\' {
        "\\\\"@
    } else if c == '\u{08}' {
        "\\b"@
    } else if c == '\u{0c}' {
        "\\f"@
    } else if c == '\n' {
        "\\n"@
    } else if c == '\r' {
        "\\r"@
    } else if c == '\t' {
        "\\t"@
    } else if c <= '\u{1f}' {
        "\\u00"@.push(hex_digit(c as nat / 16)).push(hex_digit(c as nat % 16))
    } else {
        seq![c]
    }
}

/// The characters of a text, each escaped for a JSON string literal.
pub open spec fn json_escaped(text: Seq<char>) -> Seq<char>
    decreases text.len(),
{
    if text.len() == 0 {
        seq![]
    } else {
        json_escaped(text.drop_last()) + json_escape(text.last())
    }
}

/// A text as a JSON string literal.
pub open spec fn json_string(text: Seq<char>) -> Seq<char> {
    seq!['"'] + json_escaped(text) + seq!['"']
}

fn hex_char(n: u8) -> (c: char)
    requires
        n < 16,
    ensures
        c == hex_digit(n as nat),
{
    if n < 10 {
        (48u8 + n) as char
    } else {
        (87u8 + n) as char
    }
}

fn push_json_character(output: &mut String, character: char)
    ensures
        final(output)@ == old(output)@ + json_escape(character),
{
    if character == '"' {
        output.append("\\\"");
    } else if character == '\\' {
        output.append("\\\\");
    } else if character == '\u{08}' {
        output.append("\\b");
    } else if character == '\u{0c}' {
        output.append("\\f");
    } else if character == '\n' {
        output.append("\\n");
    } else if character == '\r' {
        output.append("\\r");
    } else if character == '\t' {
        output.append("\\t");
    } else if character <= '\u{1f}' {
        let code: u8 = character as u8;
        output.append("\\u00");
        output.push(hex_char(code / 16));
        output.push(hex_char(code % 16));
        assert(output@ =~= old(output)@ + json_escape(character));
    } else {
        output.push(character);
        assert(output@ =~= old(output)@ + json_escape(character));
    }
}

/// Append a text as a JSON string literal.
pub fn push_json_string(output: &mut String, value: &str)
    ensures
        final(output)@ == old(output)@ + json_string(value@),
{
    let chars = characters(value);
    output.push('"');
    let mut i: usize = 0;
    while i < chars.len()
        invariant
            i <= chars@.len(),
            output@ == old(output)@ + seq!['"'] + json_escaped(chars@.take(i as int)),
        decreases chars.len() - i,
    {
        push_json_character(output, chars[i]);
        proof {
            let next = chars@.take(i + 1);
            assert(next.drop_last() =~= chars@.take(i as int));
            assert(output@ =~= old(output)@ + seq!['"'] + json_escaped(next));
        }
        i += 1;
    }
    output.push('"');
    assert(chars@.take(chars@.len() as int) =~= value@);
    assert(output@ =~= old(output)@ + json_string(value@));
}

/// Append `true` or `false`.
pub fn push_json_bool(output: &mut String, value: bool)
    ensures
        final(output)@ == old(output)@ + json_bool(value),
{
    if value {
        output.append("true");
    } else {
        output.append("false");
    }
}

/// `true` or `false`.
pub open spec fn json_bool(value: bool) -> Seq<char> {
    if value {
        "true"@
    } else {
        "false"@
    }
}

/// An ASCII letter in upper case; every other character as it is.
pub open spec fn ascii_upper(c: char) -> char {
    if 'a' <= c <= 'z' {
        (c as nat - 32) as char
    } else {
        c
    }
}

/// A text with its ASCII letters in upper case.
pub open spec fn uppercase(text: Seq<char>) -> Seq<char> {
    text.map_values(|c: char| ascii_upper(c))
}

/// Whether `part` occurs in `text`.
pub open spec fn contains_text(text: Seq<char>, part: Seq<char>) -> bool {
    exists|i: int|
        0 <= i && i + part.len() <= text.len() && #[trigger] text.subrange(i, i + part.len())
            == part
}

/// Whether a text names a GPS position or a geolocation, in any letter case.
pub open spec fn mentions_location(text: Seq<char>) -> bool {
    contains_text(uppercase(text), "GPS"@) || contains_text(uppercase(text), "GEOLOCATION"@)
}

fn upper_char(c: char) -> (upper: char)
    ensures
        upper == ascii_upper(c),
{
    if 'a' <= c && c <= 'z' {
        ((c as u8) - 32) as char
    } else {
        c
    }
}

/// The text's characters with ASCII letters in upper case.
pub fn uppercase_characters(text: &str) -> (upper: Vec<char>)
    ensures
        upper@ == uppercase(text@),
{
    let chars = characters(text);
    let mut upper: Vec<char> = Vec::new();
    let mut i: usize = 0;
    while i < chars.len()
        invariant
            i <= chars@.len(),
            upper@ == uppercase(chars@.take(i as int)),
        decreases chars.len() - i,
    {
        upper.push(upper_char(chars[i]));
        i += 1;
        assert(upper@ =~= uppercase(chars@.take(i as int)));
    }
    assert(chars@.take(chars@.len() as int) =~= text@);
    upper
}

/// Whether `part` occurs in `text`.
pub fn characters_contain(text: &Vec<char>, part: &str) -> (found: bool)
    ensures
        found == contains_text(text@, part@),
{
    let part_chars = characters(part);
    if part_chars.len() > text.len() {
        return false;
    }
    let last: usize = text.len() - part_chars.len();
    let mut i: usize = 0;
    while i <= last
        invariant
            i <= last + 1,
            last + part_chars.len() == text.len(),
            part_chars@ == part@,
            forall|j: int|
                0 <= j < i ==> #[trigger] text@.subrange(j, j + part@.len()) != part@,
        decreases last + 1 - i,
    {
        let mut k: usize = 0;
        while k < part_chars.len() && text[i + k] == part_chars[k]
            invariant
                k <= part_chars.len(),
                i + part_chars.len() <= text.len(),
                forall|j: int| 0 <= j < k ==> text@[i + j] == part_chars@[j],
            decreases part_chars.len() - k,
        {
            k += 1;
        }
        if k == part_chars.len() {
            assert(text@.subrange(i as int, i + part@.len()) =~= part@);
            return true;
        }
        assert(text@.subrange(i as int, i + part@.len())[k as int] != part@[k as int]);
        i += 1;
    }
    false
}

/// Whether a text names a GPS position or a geolocation, in any letter case.
pub fn text_mentions_location(text: &str) -> (found: bool)
    ensures
        found == mentions_location(text@),
{
    let upper = uppercase_characters(text);
    characters_contain(&upper, "GPS") || characters_contain(&upper, "GEOLOCATION")
}

/// The shape of an escaped character: itself, or a backslash and what follows it.
proof fn lemma_json_escape(c: char)
    ensures
        json_escape(c).len() > 0,
        forall|i: int| 0 <= i < json_escape(c).len() ==> #[trigger] json_escape(c)[i] >= ' ',
        json_escape(c)[0] != '\\' ==> json_escape(c) == seq![c],
        json_escape(c)[0] != '"',
        json_escape(c)[0] == '\\' ==> json_escape(c).len() == if json_escape(c)[1] == 'u' {
            6int
        } else {
            2int
        },
        json_escape(c)[0] == '\\' && json_escape(c)[1] == 'u' ==> c <= '\u{1f}'
            && json_escape(c)[4] == hex_digit(c as nat / 16) && json_escape(c)[5] == hex_digit(
            c as nat % 16,
        ),
        json_escape(c)[0] == '\\' && json_escape(c)[1] != 'u' ==> c == unescaped(
            json_escape(c)[1],
        ),
{
    reveal_strlit("\\\"");
    reveal_strlit("\\\\");
    reveal_strlit("\\b");
    reveal_strlit("\\f");
    reveal_strlit("\\n");
    reveal_strlit("\\r");
    reveal_strlit("\\t");
    reveal_strlit("\\u00");
}

/// The character that a backslash and a letter stand for.
spec fn unescaped(letter: char) -> char {
    if letter == 'b' {
        '\u{08}'
    } else if letter == 'f' {
        '\u{0c}'
    } else if letter == 'n' {
        '\n'
    } else if letter == 'r' {
        '\r'
    } else if letter == 't' {
        '\t'
    } else {
        letter
    }
}

proof fn lemma_json_split(first: char, rest: Seq<char>)
    ensures
        json_escaped(seq![first] + rest) == json_escape(first) + json_escaped(rest),
    decreases rest.len(),
{
    let text = seq![first] + rest;
    if rest.len() == 0 {
        assert(text.drop_last() =~= Seq::empty());
        assert(json_escaped(text.drop_last()) =~= Seq::empty());
        assert(text.last() == first);
        assert(json_escaped(text) =~= json_escape(first));
        assert(json_escape(first) + json_escaped(rest) =~= json_escape(first));
    } else {
        assert(text.drop_last() =~= seq![first] + rest.drop_last());
        lemma_json_split(first, rest.drop_last());
        assert(json_escaped(text) =~= json_escape(first) + json_escaped(rest));
    }
}

/// A text inside a JSON string literal holds no control character, so a report is
/// one line whatever a file holds.
pub proof fn json_text_has_no_control_characters(text: Seq<char>)
    ensures
        forall|i: int| 0 <= i < json_string(text).len() ==> #[trigger] json_string(text)[i] >= ' ',
{
    lemma_no_control(text);
}

proof fn lemma_no_control(text: Seq<char>)
    ensures
        forall|i: int| 0 <= i < json_escaped(text).len() ==> #[trigger] json_escaped(text)[i] >= ' ',
    decreases text.len(),
{
    if text.len() > 0 {
        let before = json_escaped(text.drop_last());
        let last = json_escape(text.last());
        lemma_no_control(text.drop_last());
        lemma_json_escape(text.last());
        assert forall|i: int| 0 <= i < json_escaped(text).len() implies #[trigger] json_escaped(
            text,
        )[i] >= ' ' by {
            if i < before.len() {
                assert(json_escaped(text)[i] == before[i]);
            } else {
                assert(json_escaped(text)[i] == last[i - before.len()]);
            }
        }
    }
}

/// A JSON string literal stands for one text alone: two texts that are written
/// alike are the same.
pub proof fn json_text_is_unambiguous(left: Seq<char>, right: Seq<char>)
    requires
        json_escaped(left) == json_escaped(right),
    ensures
        left == right,
    decreases left.len(),
{
    if left.len() == 0 || right.len() == 0 {
        lemma_not_empty(left);
        lemma_not_empty(right);
        assert(left =~= right);
    } else {
        let (a, b) = (left[0], right[0]);
        let (more, rest) = (left.skip(1), right.skip(1));
        assert(left =~= seq![a] + more);
        assert(right =~= seq![b] + rest);
        lemma_json_split(a, more);
        lemma_json_split(b, rest);
        lemma_json_escape(a);
        lemma_json_escape(b);
        let whole = json_escaped(left);
        assert(whole[0] == json_escape(a)[0] && whole[0] == json_escape(b)[0]);
        if whole[0] == '\\' {
            assert(whole[1] == json_escape(a)[1] && whole[1] == json_escape(b)[1]);
            if whole[1] == 'u' {
                assert(whole[4] == json_escape(a)[4] && whole[4] == json_escape(b)[4]);
                assert(whole[5] == json_escape(a)[5] && whole[5] == json_escape(b)[5]);
                lemma_code(a);
                lemma_code(b);
                lemma_hex_digit(a as nat / 16, b as nat / 16);
                lemma_hex_digit(a as nat % 16, b as nat % 16);
                assert(a as nat == b as nat);
                assert(a as int == b as int);
            }
        }
        assert(a == b);
        let size = json_escape(a).len() as int;
        assert(whole.skip(size) =~= json_escaped(more));
        assert(whole.skip(size) =~= json_escaped(rest));
        json_text_is_unambiguous(more, rest);
    }
}

proof fn lemma_not_empty(text: Seq<char>)
    ensures
        json_escaped(text).len() == 0 ==> text.len() == 0,
{
    if text.len() > 0 {
        lemma_json_escape(text.last());
    }
}

proof fn lemma_code(c: char)
    ensures
        0 <= c as int,
        c <= '\u{1f}' ==> c as int <= 31,
{
}

proof fn lemma_hex_digit(left: nat, right: nat)
    requires
        left < 16,
        right < 16,
        hex_digit(left) == hex_digit(right),
    ensures
        left == right,
{
}

} // verus!
