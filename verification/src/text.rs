use vstd::prelude::*;

verus! {

/// `String::push` appends one character to the end of a string.
pub assume_specification[ String::push ](s: &mut String, c: char)
    ensures
        final(s)@ == old(s)@.push(c),
;

/// The characters that carry the Unicode property `White_Space`.
pub open spec fn is_white_space(c: char) -> bool {
    let u: u32 = c as u32;
    ||| 0x09 <= u <= 0x0D
    ||| u == 0x20
    ||| u == 0x85
    ||| u == 0xA0
    ||| u == 0x1680
    ||| 0x2000 <= u <= 0x200A
    ||| u == 0x2028
    ||| u == 0x2029
    ||| u == 0x202F
    ||| u == 0x205F
    ||| u == 0x3000
}

/// A text without its leading white space.
pub open spec fn trim_start(s: Seq<char>) -> Seq<char>
    decreases s.len(),
{
    if s.len() > 0 && is_white_space(s.first()) {
        trim_start(s.drop_first())
    } else {
        s
    }
}

/// A text without its trailing white space.
pub open spec fn trim_end(s: Seq<char>) -> Seq<char>
    decreases s.len(),
{
    if s.len() > 0 && is_white_space(s.last()) {
        trim_end(s.drop_last())
    } else {
        s
    }
}

/// A text without leading and trailing white space.
pub open spec fn trimmed(s: Seq<char>) -> Seq<char> {
    trim_end(trim_start(s))
}

/// The length of the first line of a text: the position of its first line
/// feed, or its length where it has none.
pub open spec fn line_end(s: Seq<char>) -> nat
    decreases s.len(),
{
    if s.len() == 0 || s.first() == '\n' {
        0
    } else {
        1 + line_end(s.drop_first())
    }
}

/// The lines of a text: the pieces between its line feeds. A text with `k`
/// line feeds has `k + 1` lines, some of them possibly empty.
pub open spec fn lines_of(s: Seq<char>) -> Seq<Seq<char>>
    decreases s.len(),
{
    let k = line_end(s);
    if k >= s.len() {
        seq![s]
    } else {
        seq![s.take(k as int)] + lines_of(s.skip(k as int + 1))
    }
}

/// Whether a text holds no line feed.
pub open spec fn single_line(s: Seq<char>) -> bool {
    forall|i: int| 0 <= i < s.len() ==> s[i] != '\n'
}

/// Whether `part` is a run of consecutive characters of `whole`.
pub open spec fn is_part_of(part: Seq<char>, whole: Seq<char>) -> bool {
    exists|a: int, b: int| 0 <= a <= b <= whole.len() && part == #[trigger] whole.subrange(a, b)
}

/// Whether a character is one of the ten decimal digits `0` to `9`.
pub open spec fn is_digit(c: char) -> bool {
    0x30 <= c as u32 <= 0x39
}

/// The number that a decimal digit stands for.
pub open spec fn digit_value(c: char) -> int {
    c as u32 - 0x30
}

/// The number that a text of decimal digits writes.
pub open spec fn decimal(s: Seq<char>) -> int
    decreases s.len(),
{
    if s.len() == 0 {
        0
    } else {
        10 * decimal(s.drop_last()) + digit_value(s.last())
    }
}

/// Whether a text holds decimal digits only.
pub open spec fn all_digits(s: Seq<char>) -> bool {
    forall|i: int| 0 <= i < s.len() ==> is_digit(#[trigger] s[i])
}

/// The level that a text writes: it is a level when it is a non-empty run of
/// decimal digits whose number fits in an `i32`.
pub open spec fn level_of(s: Seq<char>) -> Option<int> {
    if s.len() > 0 && all_digits(s) && decimal(s) <= i32::MAX {
        Some(decimal(s))
    } else {
        None
    }
}

/// Where the first `k` characters hold no line feed and the text ends there or
/// has one there, the first line is `k` long.
pub proof fn lemma_line_end(s: Seq<char>, k: int)
    requires
        0 <= k <= s.len(),
        forall|j: int| 0 <= j < k ==> s[j] != '\n',
        k == s.len() || s[k] == '\n',
    ensures
        line_end(s) == k,
    decreases k,
{
    if k > 0 {
        let rest = s.drop_first();
        assert forall|j: int| 0 <= j < k - 1 implies rest[j] != '\n' by {
            assert(rest[j] == s[j + 1]);
        }
        lemma_line_end(rest, k - 1);
    }
}

/// The first line of a text is no longer than the text and holds no line
/// feed.
pub proof fn lemma_line_end_bounds(s: Seq<char>)
    ensures
        line_end(s) <= s.len(),
        forall|j: int| 0 <= j < line_end(s) ==> s[j] != '\n',
    decreases s.len(),
{
    if !(s.len() == 0 || s.first() == '\n') {
        let rest = s.drop_first();
        lemma_line_end_bounds(rest);
        assert forall|j: int| 0 <= j < line_end(s) implies s[j] != '\n' by {
            if j > 0 {
                assert(s[j] == rest[j - 1]);
            }
        }
    }
}

/// No line of a text holds a line feed.
pub proof fn lemma_lines_single(s: Seq<char>)
    ensures
        forall|k: int| 0 <= k < lines_of(s).len() ==> single_line(#[trigger] lines_of(s)[k]),
    decreases s.len(),
{
    let k = line_end(s);
    lemma_line_end_bounds(s);
    if k < s.len() {
        let rest = s.skip(k as int + 1);
        lemma_lines_single(rest);
        let first = seq![s.take(k as int)];
        assert forall|i: int| 0 <= i < lines_of(s).len() implies single_line(
            #[trigger] lines_of(s)[i],
        ) by {
            if i > 0 {
                assert(lines_of(s)[i] == lines_of(rest)[i - 1]);
            } else {
                assert(lines_of(s)[0] == first[0]);
            }
        }
    }
}

/// A part of a part is a part.
pub proof fn lemma_part_of_part(inner: Seq<char>, middle: Seq<char>, whole: Seq<char>)
    requires
        is_part_of(inner, middle),
        is_part_of(middle, whole),
    ensures
        is_part_of(inner, whole),
{
    let (a, b) = choose|a: int, b: int|
        0 <= a <= b <= middle.len() && inner == #[trigger] middle.subrange(a, b);
    let (c, d) = choose|c: int, d: int|
        0 <= c <= d <= whole.len() && middle == #[trigger] whole.subrange(c, d);
    assert(inner =~= whole.subrange(c + a, c + b));
}

/// A part of a text without line feeds has none.
pub proof fn lemma_part_single_line(part: Seq<char>, whole: Seq<char>)
    requires
        is_part_of(part, whole),
        single_line(whole),
    ensures
        single_line(part),
{
    let (a, b) = choose|a: int, b: int|
        0 <= a <= b <= whole.len() && part == #[trigger] whole.subrange(a, b);
    assert forall|i: int| 0 <= i < part.len() implies part[i] != '\n' by {
        assert(part[i] == whole[a + i]);
    }
}

/// What trimming leaves is a part of the text.
pub proof fn lemma_trimmed_part(s: Seq<char>)
    ensures
        is_part_of(trimmed(s), s),
{
    lemma_trim_start_part(s);
    lemma_trim_end_part(trim_start(s));
    lemma_part_of_part(trimmed(s), trim_start(s), s);
}

proof fn lemma_trim_start_part(s: Seq<char>)
    ensures
        is_part_of(trim_start(s), s),
    decreases s.len(),
{
    if s.len() > 0 && is_white_space(s.first()) {
        let rest = s.drop_first();
        lemma_trim_start_part(rest);
        assert(rest =~= s.subrange(1, s.len() as int));
        assert(is_part_of(rest, s));
        lemma_part_of_part(trim_start(rest), rest, s);
    } else {
        assert(s =~= s.subrange(0, s.len() as int));
    }
}

proof fn lemma_trim_end_part(s: Seq<char>)
    ensures
        is_part_of(trim_end(s), s),
    decreases s.len(),
{
    if s.len() > 0 && is_white_space(s.last()) {
        let rest = s.drop_last();
        lemma_trim_end_part(rest);
        assert(rest =~= s.subrange(0, s.len() - 1));
        assert(is_part_of(rest, s));
        lemma_part_of_part(trim_end(rest), rest, s);
    } else {
        assert(s =~= s.subrange(0, s.len() as int));
    }
}

/// Appending digits never makes the written number smaller.
pub proof fn lemma_decimal_grows(s: Seq<char>, k: int)
    requires
        0 <= k <= s.len(),
        all_digits(s),
    ensures
        0 <= decimal(s.take(k)) <= decimal(s),
    decreases s.len() - k,
{
    lemma_decimal_nonnegative(s.take(k));
    if k < s.len() {
        let longer = s.take(k + 1);
        assert(longer.drop_last() =~= s.take(k));
        assert(is_digit(s[k]));
        assert(longer.last() == s[k]);
        lemma_decimal_grows(s, k + 1);
    } else {
        assert(s.take(k) =~= s);
    }
}

/// A run of digits writes no negative number.
pub proof fn lemma_decimal_nonnegative(s: Seq<char>)
    requires
        all_digits(s),
    ensures
        0 <= decimal(s),
    decreases s.len(),
{
    if s.len() > 0 {
        assert(is_digit(s[s.len() - 1]));
        assert forall|i: int| 0 <= i < s.drop_last().len() implies is_digit(
            #[trigger] s.drop_last()[i],
        ) by {
            assert(s.drop_last()[i] == s[i]);
        }
        lemma_decimal_nonnegative(s.drop_last());
    }
}

/// Whether a character is white space.
pub fn is_whitespace(c: char) -> (b: bool)
    ensures
        b == is_white_space(c),
{
    let u: u32 = c as u32;
    (0x09 <= u && u <= 0x0D) || u == 0x20 || u == 0x85 || u == 0xA0 || u == 0x1680 || (0x2000 <= u
        && u <= 0x200A) || u == 0x2028 || u == 0x2029 || u == 0x202F || u == 0x205F || u == 0x3000
}

/// The characters of a text, one by one.
pub fn chars_of(text: &str) -> (chars: Vec<char>)
    ensures
        chars@ == text@,
{
    let mut chars: Vec<char> = Vec::new();
    for c in it: text.chars()
        invariant
            chars@ == it.seq().take(it.index() as int),
    {
        chars.push(c);
    }
    chars
}

/// The text made of the characters from position `from` up to `to`.
pub fn string_of(chars: &Vec<char>, from: usize, to: usize) -> (text: String)
    requires
        from <= to <= chars.len(),
    ensures
        text@ == chars@.subrange(from as int, to as int),
{
    let mut text = String::new();
    let mut i: usize = from;
    while i < to
        invariant
            from <= i <= to <= chars.len(),
            text@ == chars@.subrange(from as int, i as int),
        decreases to - i,
    {
        text.push(chars[i]);
        i += 1;
    }
    text
}

/// Removes leading and trailing white space.
pub fn trim(text: &str) -> (out: String)
    ensures
        out@ == trimmed(text@),
{
    let chars = chars_of(text);
    let n = chars.len();
    let mut start: usize = 0;
    assert(chars@.subrange(0, n as int) =~= chars@);
    while start < n && is_whitespace(chars[start])
        invariant
            start <= n,
            n == chars.len(),
            trim_start(chars@) == trim_start(chars@.subrange(start as int, n as int)),
        decreases n - start,
    {
        proof {
            let s = chars@.subrange(start as int, n as int);
            assert(s.first() == chars@[start as int]);
            assert(s.drop_first() =~= chars@.subrange(start + 1, n as int));
        }
        start += 1;
    }
    assert(trim_start(chars@) == chars@.subrange(start as int, n as int)) by {
        let s = chars@.subrange(start as int, n as int);
        if start < n {
            assert(s.first() == chars@[start as int]);
        }
    }
    let mut end: usize = n;
    while end > start && is_whitespace(chars[end - 1])
        invariant
            start <= end <= n,
            n == chars.len(),
            trim_end(chars@.subrange(start as int, n as int)) == trim_end(
                chars@.subrange(start as int, end as int),
            ),
        decreases end - start,
    {
        proof {
            let s = chars@.subrange(start as int, end as int);
            assert(s.last() == chars@[end - 1]);
            assert(s.drop_last() =~= chars@.subrange(start as int, end - 1));
        }
        end -= 1;
    }
    assert(trim_end(chars@.subrange(start as int, n as int)) == chars@.subrange(
        start as int,
        end as int,
    )) by {
        let s = chars@.subrange(start as int, end as int);
        if end > start {
            assert(s.last() == chars@[end - 1]);
        }
    }
    string_of(&chars, start, end)
}

/// Splits a text at its line feeds.
pub fn split_lines(text: &str) -> (lines: Vec<String>)
    ensures
        lines.deep_view() == lines_of(text@),
{
    let chars = chars_of(text);
    let n = chars.len();
    let mut lines: Vec<String> = Vec::new();
    let mut start: usize = 0;
    let mut i: usize = 0;
    assert(chars@.skip(0) =~= chars@);
    assert(lines.deep_view() + lines_of(chars@) =~= lines_of(chars@));
    while i < n
        invariant
            start <= i <= n,
            n == chars.len(),
            forall|k: int| start <= k < i ==> chars@[k] != '\n',
            lines_of(chars@) == lines.deep_view() + lines_of(chars@.skip(start as int)),
        decreases n - i,
    {
        if chars[i] == '\n' {
            let line = string_of(&chars, start, i);
            let ghost before = lines.deep_view();
            let ghost rest = chars@.skip(start as int);
            proof {
                assert forall|j: int| 0 <= j < i - start implies rest[j] != '\n' by {
                    assert(rest[j] == chars@[start + j]);
                }
                lemma_line_end(rest, i - start);
                assert(rest.take(i - start) =~= chars@.subrange(start as int, i as int));
                assert(rest.skip(i - start + 1) =~= chars@.skip(i + 1));
            }
            lines.push(line);
            assert(lines.deep_view() =~= before.push(line@));
            assert(before.push(line@) + lines_of(chars@.skip(i + 1)) =~= before + (seq![line@]
                + lines_of(chars@.skip(i + 1))));
            start = i + 1;
        }
        i += 1;
    }
    let last = string_of(&chars, start, n);
    let ghost before = lines.deep_view();
    let ghost rest = chars@.skip(start as int);
    proof {
        assert forall|j: int| 0 <= j < n - start implies rest[j] != '\n' by {
            assert(rest[j] == chars@[start + j]);
        }
        lemma_line_end(rest, n - start);
        assert(rest =~= chars@.subrange(start as int, n as int));
    }
    lines.push(last);
    assert(lines.deep_view() =~= before.push(last@));
    assert(before.push(last@) =~= before + seq![last@]);
    lines
}

/// Reads a level: a non-empty run of decimal digits that fits in an `i32`.
pub fn parse_level(text: &str) -> (level: Option<i32>)
    ensures
        match level {
            Some(v) => level_of(text@) == Some(v as int),
            None => level_of(text@) is None,
        },
{
    let chars = chars_of(text);
    let n = chars.len();
    if n == 0 {
        return None;
    }
    let mut value: i32 = 0;
    let mut i: usize = 0;
    while i < n
        invariant
            i <= n,
            0 < n == chars.len(),
            chars@ == text@,
            all_digits(chars@.take(i as int)),
            value == decimal(chars@.take(i as int)),
            0 <= value,
        decreases n - i,
    {
        let u: u32 = chars[i] as u32;
        if u < 0x30 || u > 0x39 {
            assert(!is_digit(chars@[i as int]));
            return None;
        }
        let d: i32 = (u - 0x30) as i32;
        proof {
            assert(chars@.take(i + 1).drop_last() =~= chars@.take(i as int));
            assert(chars@.take(i + 1).last() == chars@[i as int]);
        }
        if value > (i32::MAX - d) / 10 {
            proof {
                if all_digits(chars@) {
                    lemma_decimal_grows(chars@, i + 1);
                }
            }
            return None;
        }
        value = value * 10 + d;
        i += 1;
    }
    proof {
        assert(chars@.take(n as int) =~= chars@);
    }
    Some(value)
}

} // verus!
