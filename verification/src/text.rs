//! Text: trimming, lines, decimal numbers and UTF-8.
use vstd::prelude::*;
use vstd::utf8::*;

verus! {

/// Appends one character to a string, as `String::push` documents.
pub assume_specification[ String::push ](text: &mut String, c: char)
    ensures
        final(text)@ == old(text)@.push(c),
;

/// The characters with the Unicode property `White_Space`.
pub open spec fn is_white_space(c: char) -> bool {
    ||| '\u{9}' <= c <= '\u{d}'
    ||| c == '\u{20}'
    ||| c == '\u{85}'
    ||| c == '\u{a0}'
    ||| c == '\u{1680}'
    ||| '\u{2000}' <= c <= '\u{200a}'
    ||| c == '\u{2028}'
    ||| c == '\u{2029}'
    ||| c == '\u{202f}'
    ||| c == '\u{205f}'
    ||| c == '\u{3000}'
}

/// A text without its leading white space.
pub open spec fn trimmed_start(text: Seq<char>) -> Seq<char>
    decreases text.len(),
{
    if text.len() > 0 && is_white_space(text[0]) {
        trimmed_start(text.drop_first())
    } else {
        text
    }
}

/// A text without its trailing white space.
pub open spec fn trimmed_end(text: Seq<char>) -> Seq<char>
    decreases text.len(),
{
    if text.len() > 0 && is_white_space(text.last()) {
        trimmed_end(text.drop_last())
    } else {
        text
    }
}

/// A text without leading and trailing white space.
pub open spec fn trimmed(text: Seq<char>) -> Seq<char> {
    trimmed_end(trimmed_start(text))
}

/// `str::trim` returns the text without leading and trailing white space, where white space
/// is the Unicode property `White_Space`.
pub assume_specification[ str::trim ](text: &str) -> (res: &str)
    ensures
        res@ == trimmed(text@),
;

/// What `String::from_utf8_lossy` makes of bytes that are not valid UTF-8.
pub uninterp spec fn replaced_text(bytes: Seq<u8>) -> Seq<char>;

/// The text of a byte string: its characters where it is valid UTF-8, and otherwise what stands
/// in after replacement.
pub open spec fn lossy_text(bytes: Seq<u8>) -> Seq<char> {
    if valid_utf8(bytes) {
        decode_utf8(bytes)
    } else {
        replaced_text(bytes)
    }
}

/// `String::from_utf8_lossy` decodes valid UTF-8 exactly. Of other bytes its result is a
/// function of the bytes alone; how it replaces them is left open.
#[verifier::external_body]
pub(crate) fn from_utf8_lossy(bytes: &[u8]) -> (res: String)
    ensures
        res@ == if valid_utf8(bytes@) {
            decode_utf8(bytes@)
        } else {
            replaced_text(bytes@)
        },
{
    String::from_utf8_lossy(bytes).to_string()
}

/// Encoding a concatenation encodes its halves one after the other.
pub proof fn lemma_encode_concat(a: Seq<char>, b: Seq<char>)
    ensures
        encode_utf8(a + b) == encode_utf8(a) + encode_utf8(b),
    decreases a.len(),
{
    if a.len() == 0 {
        assert(a + b =~= b);
        assert(encode_utf8(a) + encode_utf8(b) =~= encode_utf8(b));
    } else {
        lemma_encode_concat(a.drop_first(), b);
        assert((a + b).drop_first() =~= a.drop_first() + b);
        assert((a + b)[0] == a[0]);
        assert(encode_utf8(a + b) =~= encode_utf8(a) + encode_utf8(b));
    }
}

proof fn lemma_scalar_bytes(c: u32)
    by (bit_vector)
    requires
        c >= 0x80,
    ensures
        leading_byte_width_2(c) >= 0x80,
        leading_byte_width_3(c) >= 0x80,
        leading_byte_width_4(c) >= 0x80,
        last_continuation_byte(c) >= 0x80,
        second_last_continuation_byte(c) >= 0x80,
        third_last_continuation_byte(c) >= 0x80,
{
}

proof fn lemma_ascii_scalar(c: u32)
    by (bit_vector)
    requires
        c < 0x80,
    ensures
        leading_byte_width_1(c) == c,
{
}

/// An ASCII byte in the encoding of a text stems from that character in the text.
pub proof fn lemma_encoded_ascii_byte(text: Seq<char>, at: int)
    requires
        0 <= at < encode_utf8(text).len(),
        encode_utf8(text)[at] < 0x80,
    ensures
        exists|i: int| 0 <= i < text.len() && text[i] as u32 == encode_utf8(text)[at] as u32,
    decreases text.len(),
{
    let first = text[0] as u32;
    let head = encode_scalar(first);
    let rest = text.drop_first();
    char_is_scalar(text[0]);
    if at < head.len() {
        assert(encode_utf8(text)[at] == head[at]);
        if first >= 0x80 {
            lemma_scalar_bytes(first);
        } else {
            lemma_ascii_scalar(first);
            assert(text[0] as u32 == encode_utf8(text)[at] as u32);
        }
    } else {
        assert(encode_utf8(text)[at] == encode_utf8(rest)[at - head.len()]);
        lemma_encoded_ascii_byte(rest, at - head.len());
        let i = choose|i: int|
            0 <= i < rest.len() && rest[i] as u32 == encode_utf8(rest)[at - head.len()] as u32;
        assert(text[i + 1] == rest[i]);
    }
}

/// Whether two byte strings are the same.
pub fn same_bytes(a: &[u8], b: &[u8]) -> (res: bool)
    ensures
        res == (a@ == b@),
{
    if a.len() != b.len() {
        return false;
    }
    let mut i: usize = 0;
    while i < a.len()
        invariant
            i <= a@.len(),
            a@.len() == b@.len(),
            forall|j: int| 0 <= j < i ==> a@[j] == b@[j],
        decreases a@.len() - i,
    {
        if a[i] != b[i] {
            return false;
        }
        i = i + 1;
    }
    assert(a@ =~= b@);
    true
}

/// Whether two texts are the same.
pub fn same_text(a: &str, b: &str) -> (res: bool)
    ensures
        res == (a@ == b@),
{
    proof {
        encode_utf8_decode_utf8(a@);
        encode_utf8_decode_utf8(b@);
    }
    same_bytes(a.as_bytes(), b.as_bytes())
}

/// Whether a character occurs in a text twice in a row.
pub open spec fn has_doubled(text: Seq<char>, c: char) -> bool {
    exists|i: int| 0 <= i && i + 1 < text.len() && #[trigger] text[i] == c && text[i + 1] == c
}

/// Tells whether a character occurs in a text twice in a row.
pub fn contains_doubled(text: &str, c: char) -> (res: bool)
    ensures
        res == has_doubled(text@, c),
{
    let mut found: bool = false;
    let mut previous: bool = false;
    for d in iter: text.chars()
        invariant
            iter.seq() == text@,
            previous == (iter.index() > 0 && text@[iter.index() - 1] == c),
            found ==> has_doubled(text@, c),
            !found ==> forall|i: int|
                0 <= i && i + 1 < iter.index() && #[trigger] text@[i] == c ==> text@[i + 1] != c,
    {
        if d == c {
            if previous {
                assert(text@[iter.index() - 1] == c);
                found = true;
            }
            previous = true;
        } else {
            previous = false;
        }
    }
    found
}

/// The part of a text before the first `c`, or the whole text where there is none.
pub open spec fn before_first(text: Seq<char>, c: char) -> Seq<char> {
    text.take(first_char(text, c, 0))
}

/// Gives the part of a text before the first `c`.
pub fn split_first(text: &str, c: char) -> (res: String)
    ensures
        res@ == before_first(text@, c),
{
    let mut res: String = String::new();
    let mut done: bool = false;
    for d in iter: text.chars()
        invariant
            iter.seq() == text@,
            !done ==> res@ == text@.take(iter.index() as int) && (forall|i: int|
                0 <= i < iter.index() ==> text@[i] != c),
            done ==> res@ == before_first(text@, c),
    {
        if !done {
            if d == c {
                proof {
                    lemma_first_char_is(text@, c, 0, iter.index() as int);
                }
                done = true;
            } else {
                res.push(d);
                assert(res@ =~= text@.take(iter.index() + 1));
            }
        }
    }
    proof {
        if !done {
            lemma_first_char_is(text@, c, 0, text@.len() as int);
        }
    }
    res
}

/// A text that may be missing.
pub open spec fn optional_text(text: Option<String>) -> Option<Seq<char>> {
    match text {
        Some(s) => Some(s@),
        None => None,
    }
}

/// The decimal digit of value `d`.
pub open spec fn decimal_digit(d: nat) -> char
    recommends
        d < 10,
{
    (48 + d) as char
}

/// A number in decimal, without leading zeros.
pub open spec fn decimal(n: nat) -> Seq<char>
    decreases n,
{
    if n < 10 {
        seq![decimal_digit(n)]
    } else {
        decimal(n / 10).push(decimal_digit(n % 10))
    }
}

/// Writes a number in decimal.
pub fn decimal_text(n: usize) -> (res: String)
    ensures
        res@ == decimal(n as nat),
    decreases n,
{
    let mut res: String = if n < 10 {
        String::new()
    } else {
        decimal_text(n / 10)
    };
    let digit: u8 = (n % 10) as u8;
    res.push((48u8 + digit) as char);
    assert(res@ =~= decimal(n as nat));
    res
}

/// A run of `n` copies of `c`.
pub open spec fn repeated(c: char, n: nat) -> Seq<char> {
    Seq::new(n, |i: int| c)
}

/// A text right-aligned in a field of `width` characters, filled up with spaces. A longer text
/// stands as it is.
pub open spec fn right_aligned(text: Seq<char>, width: nat) -> Seq<char> {
    if text.len() < width {
        repeated(' ', (width - text.len()) as nat) + text
    } else {
        text
    }
}

/// Writes a number in decimal, right-aligned in a field of `width` characters.
pub fn right_aligned_decimal(n: usize, width: usize) -> (res: String)
    ensures
        res@ == right_aligned(decimal(n as nat), width as nat),
{
    let digits: String = decimal_text(n);
    let len: usize = digits.as_str().unicode_len();
    let mut res: String = String::new();
    let mut filled: usize = len;
    while filled < width
        invariant
            len <= filled,
            filled <= width || filled == len,
            res@ == repeated(' ', (filled - len) as nat),
        decreases width - filled,
    {
        res.push(' ');
        filled = filled + 1;
        assert(res@ =~= repeated(' ', (filled - len) as nat));
    }
    res.append(digits.as_str());
    assert(res@ =~= right_aligned(decimal(n as nat), width as nat));
    res
}

/// The position of the first `c` at or after `from`, or the length of the text.
pub open spec fn first_char(text: Seq<char>, c: char, from: int) -> int
    decreases text.len() - from,
{
    if from < 0 || from >= text.len() {
        text.len() as int
    } else if text[from] == c {
        from
    } else {
        first_char(text, c, from + 1)
    }
}

/// A line without the carriage return that stands before its line feed.
pub open spec fn without_carriage_return(line: Seq<char>) -> Seq<char> {
    if line.len() > 0 && line.last() == '\r' {
        line.drop_last()
    } else {
        line
    }
}

/// The lines of a text. A line ends in a line feed or in a carriage return and a line feed,
/// which are no part of it; the last line need not be ended.
pub open spec fn text_lines(text: Seq<char>) -> Seq<Seq<char>>
    decreases text.len(),
{
    let end = first_char(text, '\n', 0);
    if text.len() == 0 {
        Seq::empty()
    } else if end >= text.len() || end < 0 {
        seq![text]
    } else {
        seq![without_carriage_return(text.take(end))] + text_lines(text.skip(end + 1))
    }
}

/// The texts that a list of strings holds.
pub open spec fn texts(strings: Seq<String>) -> Seq<Seq<char>> {
    strings.map_values(|s: String| s@)
}

/// Where the first `c` stands.
pub proof fn lemma_first_char(text: Seq<char>, c: char, from: int)
    requires
        0 <= from <= text.len(),
    ensures
        from <= first_char(text, c, from) <= text.len(),
        first_char(text, c, from) < text.len() ==> text[first_char(text, c, from)] == c,
        forall|i: int| from <= i < first_char(text, c, from) ==> text[i] != c,
    decreases text.len() - from,
{
    if from < text.len() && text[from] != c {
        lemma_first_char(text, c, from + 1);
    }
}

/// The first `c` is where a `c` stands and none before it.
pub proof fn lemma_first_char_is(text: Seq<char>, c: char, from: int, at: int)
    requires
        0 <= from <= at <= text.len(),
        at < text.len() ==> text[at] == c,
        forall|i: int| from <= i < at ==> text[i] != c,
    ensures
        first_char(text, c, from) == at,
{
    lemma_first_char(text, c, from);
}

/// The lines of a text, as `str::lines` gives them.
pub fn lines(text: &str) -> (res: Vec<String>)
    ensures
        texts(res@) == text_lines(text@),
{
    let mut res: Vec<String> = Vec::new();
    let mut line: String = String::new();
    let mut carriage_return: bool = false;
    let ghost mut raw: Seq<char> = Seq::empty();
    assert(texts(res@) + text_lines(raw + text@.skip(0)) =~= text_lines(text@)) by {
        assert(raw + text@.skip(0) =~= text@);
    }
    for c in iter: text.chars()
        invariant
            iter.seq() == text@,
            texts(res@) + text_lines(raw + text@.skip(iter.index() as int)) == text_lines(text@),
            raw == if carriage_return {
                line@.push('\r')
            } else {
                line@
            },
            !carriage_return ==> line@.len() == 0 || line@.last() != '\r',
            forall|i: int| 0 <= i < raw.len() ==> raw[i] != '\n',
    {
        let ghost at = iter.index() as int;
        let ghost rest = text@.skip(at + 1);
        let ghost before = raw + text@.skip(at);
        let ghost done = texts(res@);
        if c == '\n' {
            proof {
                lemma_first_char_is(before, '\n', 0, raw.len() as int);
                assert(before.take(raw.len() as int) =~= raw);
                assert(before.skip(raw.len() as int + 1) =~= rest);
                assert(without_carriage_return(raw) =~= line@);
                assert(text_lines(before) =~= seq![line@] + text_lines(rest));
            }
            let ghost line_done = line@;
            res.push(line);
            line = String::new();
            carriage_return = false;
            proof {
                raw = Seq::empty();
                assert(raw + rest =~= rest);
                assert(texts(res@) =~= done + seq![line_done]);
            }
        } else {
            if carriage_return {
                line.push('\r');
            }
            if c == '\r' {
                carriage_return = true;
            } else {
                carriage_return = false;
                line.push(c);
            }
            proof {
                raw = raw.push(c);
                assert(raw + rest =~= before);
            }
        }
    }
    if carriage_return {
        line.push('\r');
    }
    assert(raw + text@.skip(text@.len() as int) =~= raw);
    if line.as_str().is_empty() {
        assert(text_lines(raw) =~= Seq::empty());
        assert(texts(res@) =~= text_lines(text@));
    } else {
        proof {
            lemma_first_char_is(raw, '\n', 0, raw.len() as int);
            assert(text_lines(raw) =~= seq![line@]);
        }
        let ghost done = texts(res@);
        res.push(line);
        assert(texts(res@) =~= done + seq![line@]);
    }
    res
}

/// A line that is put behind complete lines is one more line.
pub proof fn lemma_line_appended(text: Seq<char>, line: Seq<char>)
    requires
        text.len() == 0 || text.last() == '\n',
        !line.contains('\n'),
        line.len() > 0,
        line.last() != '\r',
    ensures
        text_lines(text + line + seq!['\n']) == text_lines(text) + seq![line],
    decreases text.len(),
{
    let whole = text + line + seq!['\n'];
    if text.len() == 0 {
        assert forall|i: int| 0 <= i < line.len() implies whole[i] != '\n' by {
            assert(whole[i] == line[i]);
            assert(line.contains(line[i]));
        }
        lemma_first_char_is(whole, '\n', 0, line.len() as int);
        assert(whole.take(line.len() as int) =~= line);
        assert(whole.skip(line.len() as int + 1) =~= Seq::<char>::empty());
        assert(text_lines(Seq::<char>::empty()) =~= Seq::empty());
        assert(without_carriage_return(line) == line);
        assert(text_lines(whole) =~= text_lines(text) + seq![line]);
    } else {
        lemma_first_char(text, '\n', 0);
        let end = first_char(text, '\n', 0);
        assert(end < text.len()) by {
            if end == text.len() {
                assert(text[text.len() - 1] != '\n');
            }
        }
        assert forall|i: int| 0 <= i < end implies whole[i] != '\n' by {
            assert(whole[i] == text[i]);
        }
        lemma_first_char_is(whole, '\n', 0, end);
        let rest = text.skip(end + 1);
        assert(whole.take(end) =~= text.take(end));
        assert(whole.skip(end + 1) =~= rest + line + seq!['\n']);
        lemma_line_appended(rest, line);
        assert(text_lines(whole) =~= text_lines(text) + seq![line]);
    }
}

/// Ending the last line of a text with a line feed makes no other lines of it, unless a carriage
/// return stood at its end.
pub proof fn lemma_last_line_ended(text: Seq<char>)
    requires
        text.len() > 0,
        text.last() != '\n',
        text.last() != '\r',
    ensures
        text_lines(text.push('\n')) == text_lines(text),
    decreases text.len(),
{
    let whole = text.push('\n');
    lemma_first_char(text, '\n', 0);
    let end = first_char(text, '\n', 0);
    assert forall|i: int| 0 <= i < end implies whole[i] != '\n' by {
        assert(whole[i] == text[i]);
    }
    lemma_first_char_is(whole, '\n', 0, end);
    assert(whole.take(end) =~= text.take(end));
    if end < text.len() {
        let rest = text.skip(end + 1);
        assert(end != text.len() - 1);
        assert(rest.last() == text.last());
        assert(whole.skip(end + 1) =~= rest.push('\n'));
        lemma_last_line_ended(rest);
    } else {
        assert(text.take(end) =~= text);
        assert(whole.skip(end + 1) =~= Seq::<char>::empty());
        assert(text_lines(Seq::<char>::empty()) =~= Seq::empty());
        assert(without_carriage_return(text) == text);
        assert(text_lines(whole) =~= seq![text]);
    }
}

/// A text that holds the bytes of a byte string one for one, each as the character of its value.
pub open spec fn byte_text(bytes: Seq<u8>) -> Seq<char> {
    bytes.map_values(|b: u8| b as char)
}

/// Writes the bytes of a byte string one for one, each as the character of its value.
pub fn bytes_as_text(bytes: &[u8]) -> (res: String)
    ensures
        res@ == byte_text(bytes@),
{
    let mut res: String = String::new();
    let mut i: usize = 0;
    while i < bytes.len()
        invariant
            i <= bytes@.len(),
            res@ == byte_text(bytes@.take(i as int)),
        decreases bytes@.len() - i,
    {
        res.push(bytes[i] as char);
        i = i + 1;
        assert(res@ =~= byte_text(bytes@.take(i as int)));
    }
    assert(bytes@.take(bytes@.len() as int) =~= bytes@);
    res
}

/// Different byte strings give different texts.
pub proof fn lemma_byte_text(a: Seq<u8>, b: Seq<u8>)
    requires
        byte_text(a) == byte_text(b),
    ensures
        a == b,
{
    assert(byte_text(a).len() == a.len() && byte_text(b).len() == b.len());
    assert forall|i: int| 0 <= i < a.len() implies a[i] == b[i] by {
        assert(byte_text(a)[i] == a[i] as char);
        assert(byte_text(b)[i] == b[i] as char);
    }
    assert(a =~= b);
}

/// The digits of a number in decimal are worth the number: read from the left, each digit counts
/// for itself and raises what stands before it tenfold. The first digit is no zero but of zero.
pub proof fn law_decimal_value(n: nat)
    ensures
        decimal(n).len() > 0,
        forall|i: int| 0 <= i < decimal(n).len() ==> '0' <= #[trigger] decimal(n)[i] <= '9',
        decimal(n).fold_left(0, |value: int, c: char| 10 * value + (c as int - 48)) == n,
        n > 0 ==> decimal(n)[0] != '0',
    decreases n,
{
    if n >= 10 {
        law_decimal_value(n / 10);
        assert(decimal(n).drop_last() =~= decimal(n / 10));
        assert(decimal(n).last() as int - 48 == n % 10);
        assert(decimal(n)[0] == decimal(n / 10)[0]);
    } else {
        assert(decimal(n).drop_last() =~= Seq::empty());
        reveal_with_fuel(Seq::fold_left, 2);
        assert(decimal(n).last() as int - 48 == n);
    }
}

/// A right-aligned text ends in the text, and is made as wide as the field with spaces alone.
pub proof fn law_right_aligned(text: Seq<char>, width: nat)
    ensures
        right_aligned(text, width).len() == if text.len() < width {
            width
        } else {
            text.len()
        },
        right_aligned(text, width).skip(right_aligned(text, width).len() - text.len()) == text,
        forall|i: int|
            0 <= i < right_aligned(text, width).len() - text.len() ==> #[trigger] right_aligned(
                text,
                width,
            )[i] == ' ',
{
}

/// What stands before a line feed is a line, without the carriage return at its end, and the lines
/// behind the line feed follow it. What is not ended by a line feed is a line as it stands.
pub proof fn law_lines(line: Seq<char>, rest: Seq<char>)
    requires
        !line.contains('\n'),
    ensures
        text_lines(line + seq!['\n'] + rest) == seq![
            if line.len() > 0 && line[line.len() - 1] == '\r' {
                line.take(line.len() - 1)
            } else {
                line
            },
        ] + text_lines(rest),
        line.len() > 0 ==> text_lines(line) == seq![line],
        text_lines(Seq::empty()) == Seq::<Seq<char>>::empty(),
{
    let whole = line + seq!['\n'] + rest;
    assert forall|i: int| 0 <= i < line.len() implies line[i] != '\n' && whole[i] != '\n' by {
        assert(whole[i] == line[i]);
        assert(line.contains(line[i]));
    }
    lemma_first_char_is(whole, '\n', 0, line.len() as int);
    lemma_first_char_is(line, '\n', 0, line.len() as int);
    assert(whole.take(line.len() as int) =~= line);
    assert(whole.skip(line.len() as int + 1) =~= rest);
    assert(line.len() > 0 ==> line.drop_last() =~= line.take(line.len() - 1));
}

/// A character occurs twice in a row exactly where two of it stand side by side.
pub proof fn law_has_doubled(text: Seq<char>, c: char)
    ensures
        has_doubled(text, c) <==> exists|i: int|
            0 <= i <= text.len() - 2 && #[trigger] text.subrange(i, i + 2) == seq![c, c],
{
    if has_doubled(text, c) {
        let i = choose|i: int|
            0 <= i && i + 1 < text.len() && #[trigger] text[i] == c && text[i + 1] == c;
        assert(text.subrange(i, i + 2) =~= seq![c, c]);
    }
    if exists|i: int| 0 <= i <= text.len() - 2 && #[trigger] text.subrange(i, i + 2) == seq![c, c] {
        let i = choose|i: int|
            0 <= i <= text.len() - 2 && #[trigger] text.subrange(i, i + 2) == seq![c, c];
        assert(text.subrange(i, i + 2)[0] == text[i]);
        assert(text.subrange(i, i + 2)[1] == text[i + 1]);
    }
}

/// The part of a text before the first `c` is what stands before it, whatever follows, and the
/// whole text where there is none.
pub proof fn law_before_first(head: Seq<char>, rest: Seq<char>, c: char)
    requires
        !head.contains(c),
    ensures
        before_first(head + seq![c] + rest, c) == head,
        before_first(head, c) == head,
{
    let whole = head + seq![c] + rest;
    assert forall|i: int| 0 <= i < head.len() implies head[i] != c && whole[i] != c by {
        assert(whole[i] == head[i]);
        assert(head.contains(head[i]));
    }
    lemma_first_char_is(whole, c, 0, head.len() as int);
    lemma_first_char_is(head, c, 0, head.len() as int);
    assert(whole.take(head.len() as int) =~= head);
    assert(head.take(head.len() as int) =~= head);
}

/// The texts of strings are their characters, one text for each string.
pub proof fn law_texts(strings: Seq<String>, text: Option<String>)
    ensures
        texts(strings).len() == strings.len(),
        forall|i: int| 0 <= i < strings.len() ==> #[trigger] texts(strings)[i] == strings[i]@,
        optional_text(text) is Some <==> text is Some,
        text is Some ==> optional_text(text)->0 == text->0@,
{
}

/// A text that was encoded reads as the same text. Bytes that are no text read as what stands in
/// for them, and are kept one for one where they are written as characters.
pub proof fn law_encoded_text_reads_back(text: Seq<char>, bytes: Seq<u8>)
    ensures
        lossy_text(encode_utf8(text)) == text,
        !valid_utf8(bytes) ==> lossy_text(bytes) == replaced_text(bytes),
        byte_text(bytes).len() == bytes.len(),
        forall|i: int| 0 <= i < bytes.len() ==> #[trigger] byte_text(bytes)[i] as int == bytes[i],
{
    encode_utf8_valid_utf8(text);
    encode_utf8_decode_utf8(text);
}

} // verus!
