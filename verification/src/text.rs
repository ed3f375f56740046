//! Strings as sequences of characters: comparing, trimming, joining and reading numbers.

use vstd::prelude::*;

verus! {

/// `String::push` appends one character to the end of the string.
pub assume_specification[ String::push ](s: &mut String, c: char)
    ensures
        final(s)@ == old(s)@.push(c),
;

/// The contents of a list of strings.
pub open spec fn texts(parts: Seq<String>) -> Seq<Seq<char>> {
    parts.map_values(|s: String| s@)
}

/// The contents of an optional string.
pub open spec fn text_of(text: Option<String>) -> Option<Seq<char>> {
    match text {
        Some(t) => Some(t@),
        None => None,
    }
}

/// The contents of an optional string slice.
pub open spec fn str_of(text: Option<&str>) -> Option<Seq<char>> {
    match text {
        Some(t) => Some(t@),
        None => None,
    }
}

/// The characters with the Unicode property White_Space.
pub open spec fn is_space(c: char) -> bool {
    ||| '\u{9}' <= c <= '\u{d}'
    ||| c == ' '
    ||| c == '\u{85}'
    ||| c == '\u{a0}'
    ||| c == '\u{1680}'
    ||| '\u{2000}' <= c <= '\u{200a}'
    ||| c == '\u{2028}'
    ||| c == '\u{2029}'
    ||| c == '\u{202f}'
    ||| c == '\u{205f}'
    ||| c == '\u{3000}'
}

/// `s` without the white space at its end.
pub open spec fn trim_end(s: Seq<char>) -> Seq<char>
    decreases s.len(),
{
    if s.len() > 0 && is_space(s.last()) {
        trim_end(s.drop_last())
    } else {
        s
    }
}

/// `s` without the white space at its start.
pub open spec fn trim_start(s: Seq<char>) -> Seq<char>
    decreases s.len(),
{
    if s.len() > 0 && is_space(s[0]) {
        trim_start(s.skip(1))
    } else {
        s
    }
}

/// `s` without the white space at either end.
pub open spec fn trimmed(s: Seq<char>) -> Seq<char> {
    trim_end(trim_start(s))
}

/// The parts one after another, with `sep` between neighbours.
pub open spec fn joined(parts: Seq<Seq<char>>, sep: Seq<char>) -> Seq<char>
    decreases parts.len(),
{
    if parts.len() == 0 {
        Seq::empty()
    } else if parts.len() == 1 {
        parts[0]
    } else {
        joined(parts.drop_last(), sep) + sep + parts.last()
    }
}

/// The parts that hold at least one character, in order.
pub open spec fn nonempty(parts: Seq<Seq<char>>) -> Seq<Seq<char>>
    decreases parts.len(),
{
    if parts.len() == 0 {
        Seq::empty()
    } else if parts.last().len() == 0 {
        nonempty(parts.drop_last())
    } else {
        nonempty(parts.drop_last()).push(parts.last())
    }
}

/// The stretches of `s` between its line feeds; there is always one more than line feeds.
pub open spec fn split_lines(s: Seq<char>) -> Seq<Seq<char>>
    decreases s.len(),
{
    if s.len() == 0 {
        seq![Seq::empty()]
    } else {
        let before = split_lines(s.drop_last());
        if s.last() == '\n' {
            before.push(Seq::empty())
        } else {
            before.drop_last().push(before.last().push(s.last()))
        }
    }
}

/// The lines of `s`, trimmed, without the blank ones.
pub open spec fn tidy_lines(s: Seq<char>) -> Seq<Seq<char>> {
    nonempty(split_lines(s).map_values(|l: Seq<char>| trimmed(l)))
}

/// Whether a character is a decimal digit.
pub open spec fn is_digit(c: char) -> bool {
    '0' <= c <= '9'
}

/// Whether `s` is one or more decimal digits.
pub open spec fn is_number(s: Seq<char>) -> bool {
    s.len() > 0 && forall|i: int| 0 <= i < s.len() ==> is_digit(#[trigger] s[i])
}

/// The value of a run of decimal digits, the most significant first.
pub open spec fn decimal(s: Seq<char>) -> int
    decreases s.len(),
{
    if s.len() == 0 {
        0
    } else {
        10 * decimal(s.drop_last()) + (s.last() as int - '0' as int)
    }
}

/// The number that `s` spells: digits behind an optional plus sign.
pub open spec fn unsigned_value(s: Seq<char>) -> Option<int> {
    let digits = if s.len() > 0 && s[0] == '+' {
        s.skip(1)
    } else {
        s
    };
    if is_number(digits) {
        Some(decimal(digits))
    } else {
        None
    }
}

/// The number that `s` spells: digits behind an optional plus or minus sign.
pub open spec fn signed_value(s: Seq<char>) -> Option<int> {
    if s.len() > 0 && s[0] == '-' {
        if is_number(s.skip(1)) {
            Some(-decimal(s.skip(1)))
        } else {
            None
        }
    } else {
        unsigned_value(s)
    }
}

/// `n` where it lies between the bounds.
pub open spec fn in_range(n: Option<int>, low: int, high: int) -> Option<int> {
    match n {
        Some(v) => if low <= v <= high {
            Some(v)
        } else {
            None
        },
        None => None,
    }
}

/// Whether two strings hold the same characters.
pub fn same_text(a: &str, b: &str) -> (same: bool)
    ensures
        same == (a@ == b@),
{
    let mut left = a.chars();
    let mut right = b.chars();
    let ghost mut done: int = 0;
    assert(a@.skip(0) == a@);
    assert(b@.skip(0) == b@);
    loop
        invariant
            0 <= done <= a@.len(),
            done <= b@.len(),
            vstd::std_specs::iter::IteratorSpec::remaining(&left) == a@.skip(done),
            vstd::std_specs::iter::IteratorSpec::remaining(&right) == b@.skip(done),
            a@.take(done) == b@.take(done),
        decreases a@.len() - done,
    {
        let x = left.next();
        let y = right.next();
        match (x, y) {
            (Some(c), Some(d)) => {
                if c != d {
                    assert(a@[done] != b@[done]);
                    return false;
                }
                proof {
                    assert(a@.take(done + 1) == a@.take(done).push(c));
                    assert(b@.take(done + 1) == b@.take(done).push(c));
                    done = done + 1;
                }
            },
            (None, None) => {
                assert(a@.take(done) == a@);
                assert(b@.take(done) == b@);
                return true;
            },
            _ => {
                return false;
            },
        }
    }
}

/// Whether `s` begins with the characters of `prefix`.
pub fn starts_with(s: &str, prefix: &str) -> (starts: bool)
    ensures
        starts == prefix@.is_prefix_of(s@),
{
    let mut left = s.chars();
    let mut right = prefix.chars();
    let ghost mut done: int = 0;
    assert(s@.skip(0) == s@);
    assert(prefix@.skip(0) == prefix@);
    loop
        invariant
            0 <= done <= prefix@.len(),
            done <= s@.len(),
            vstd::std_specs::iter::IteratorSpec::remaining(&left) == s@.skip(done),
            vstd::std_specs::iter::IteratorSpec::remaining(&right) == prefix@.skip(done),
            forall|k: int| 0 <= k < done ==> s@[k] == prefix@[k],
        decreases prefix@.len() - done,
    {
        let y = right.next();
        match y {
            None => {
                assert(prefix@ =~= s@.take(prefix@.len() as int));
                return true;
            },
            Some(d) => {
                let x = left.next();
                match x {
                    None => {
                        return false;
                    },
                    Some(c) => {
                        if c != d {
                            assert(s@[done] != prefix@[done]);
                            return false;
                        }
                        proof {
                            done = done + 1;
                        }
                    },
                }
            },
        }
    }
}

/// The characters of a string.
pub fn to_chars(s: &str) -> (chars: Vec<char>)
    ensures
        chars@ == s@,
{
    let mut out: Vec<char> = Vec::new();
    for c in it: s.chars()
        invariant
            out@ == s@.take(it.index() as int),
            it.seq() == s@,
    {
        out.push(c);
    }
    out
}

/// The string of the characters from `low` up to, but not with, `high`.
pub fn substring(chars: &Vec<char>, low: usize, high: usize) -> (s: String)
    requires
        low <= high <= chars@.len(),
    ensures
        s@ == chars@.subrange(low as int, high as int),
{
    let mut out = String::new();
    let mut i = low;
    while i < high
        invariant
            low <= i <= high <= chars@.len(),
            out@ == chars@.subrange(low as int, i as int),
        decreases high - i,
    {
        out.push(chars[i]);
        i += 1;
        assert(chars@.subrange(low as int, i as int) =~= chars@.subrange(
            low as int,
            i as int - 1,
        ).push(chars@[i as int - 1]));
    }
    out
}

/// Whether a character is white space.
pub fn space(c: char) -> (yes: bool)
    ensures
        yes == is_space(c),
{
    ('\u{9}' <= c && c <= '\u{d}') || c == ' ' || c == '\u{85}' || c == '\u{a0}' || c == '\u{1680}'
        || ('\u{2000}' <= c && c <= '\u{200a}') || c == '\u{2028}' || c == '\u{2029}' || c
        == '\u{202f}' || c == '\u{205f}' || c == '\u{3000}'
}

/// Where the text between `low` and `high` ends once the white space at its end is gone.
fn end_of_text(chars: &Vec<char>, low: usize, high: usize) -> (end: usize)
    requires
        low <= high <= chars@.len(),
    ensures
        low <= end <= high,
        chars@.subrange(low as int, end as int) == trim_end(
            chars@.subrange(low as int, high as int),
        ),
{
    let mut end = high;
    while end > low && space(chars[end - 1])
        invariant
            low <= end <= high <= chars@.len(),
            trim_end(chars@.subrange(low as int, end as int)) == trim_end(
                chars@.subrange(low as int, high as int),
            ),
        decreases end,
    {
        assert(chars@.subrange(low as int, end as int).drop_last() =~= chars@.subrange(
            low as int,
            end as int - 1,
        ));
        end -= 1;
    }
    end
}

/// Where the text begins once the white space at its start is gone.
fn start_of_text(chars: &Vec<char>) -> (start: usize)
    ensures
        start <= chars@.len(),
        chars@.skip(start as int) == trim_start(chars@),
{
    let mut start: usize = 0;
    assert(chars@.skip(0) =~= chars@);
    while start < chars.len() && space(chars[start])
        invariant
            start <= chars@.len(),
            trim_start(chars@.skip(start as int)) == trim_start(chars@),
        decreases chars@.len() - start,
    {
        assert(chars@.skip(start as int).skip(1) =~= chars@.skip(start as int + 1));
        start += 1;
    }
    start
}

/// The text without the white space at its end.
pub fn without_trailing_space(s: &str) -> (out: String)
    ensures
        out@ == trim_end(s@),
{
    let chars = to_chars(s);
    let end = end_of_text(&chars, 0, chars.len());
    assert(chars@.subrange(0, chars@.len() as int) =~= chars@);
    substring(&chars, 0, end)
}

/// The text without the white space at either end.
pub fn trim(s: &str) -> (out: String)
    ensures
        out@ == trimmed(s@),
{
    let chars = to_chars(s);
    let start = start_of_text(&chars);
    let end = end_of_text(&chars, start, chars.len());
    assert(chars@.subrange(start as int, chars@.len() as int) =~= chars@.skip(start as int));
    substring(&chars, start, end)
}

/// The parts one after another, with `sep` between neighbours.
pub fn join(parts: &Vec<String>, sep: &str) -> (out: String)
    ensures
        out@ == joined(texts(parts@), sep@),
{
    let ghost all = texts(parts@);
    let mut out = String::new();
    let mut i: usize = 0;
    while i < parts.len()
        invariant
            i <= parts@.len(),
            all == texts(parts@),
            out@ == joined(all.take(i as int), sep@),
        decreases parts@.len() - i,
    {
        if i > 0 {
            out.append(sep);
        }
        out.append(parts[i].as_str());
        assert(all.take(i as int + 1).drop_last() =~= all.take(i as int));
        i += 1;
    }
    assert(all.take(i as int) =~= all);
    out
}

/// The part-by-part form of [`nonempty`].
pub proof fn lemma_nonempty_push(parts: Seq<Seq<char>>, part: Seq<char>)
    ensures
        nonempty(parts.push(part)) == (if part.len() == 0 {
            nonempty(parts)
        } else {
            nonempty(parts).push(part)
        }),
{
    assert(parts.push(part).drop_last() =~= parts);
}

/// The lines of `text`, trimmed, without the blank ones, joined by single spaces.
pub fn clean_lines(text: &str) -> (out: String)
    ensures
        out@ == joined(tidy_lines(text@), " "@),
{
    let ghost trims = |l: Seq<char>| trimmed(l);
    let mut parts: Vec<String> = Vec::new();
    let mut line = String::new();
    let ghost mut done: Seq<Seq<char>> = Seq::empty();
    proof {
        assert(split_lines(text@.take(0)) =~= done.push(line@));
        assert(done.map_values(trims) =~= Seq::<Seq<char>>::empty());
        assert(texts(parts@) =~= Seq::<Seq<char>>::empty());
    }
    for c in it: text.chars()
        invariant
            it.seq() == text@,
            trims == (|l: Seq<char>| trimmed(l)),
            split_lines(text@.take(it.index() as int)) == done.push(line@),
            texts(parts@) == nonempty(done.map_values(trims)),
    {
        let ghost k = it.index() as int;
        assert(text@.take(k + 1).drop_last() =~= text@.take(k));
        assert(text@.take(k + 1).last() == c);
        assert(done.push(line@).drop_last() =~= done);
        if c == '\n' {
            let part = trim(line.as_str());
            let ghost before = done;
            proof {
                lemma_nonempty_push(before.map_values(trims), part@);
                done = done.push(line@);
                assert(done.map_values(trims) =~= before.map_values(trims).push(part@));
            }
            if part.as_str().is_empty() {
                assert(part@.len() == 0);
            } else {
                let ghost kept = texts(parts@);
                parts.push(part);
                assert(texts(parts@) =~= kept.push(part@));
            }
            line = String::new();
        } else {
            line.push(c);
        }
    }
    assert(text@.take(text@.len() as int) =~= text@);
    let part = trim(line.as_str());
    proof {
        lemma_nonempty_push(done.map_values(trims), part@);
        assert(split_lines(text@).map_values(trims) =~= done.map_values(trims).push(part@));
    }
    if !part.as_str().is_empty() {
        let ghost kept = texts(parts@);
        parts.push(part);
        assert(texts(parts@) =~= kept.push(part@));
    }
    join(&parts, " ")
}

proof fn lemma_decimal_grows(s: Seq<char>, k: int)
    requires
        0 <= k <= s.len(),
        forall|i: int| 0 <= i < s.len() ==> is_digit(#[trigger] s[i]),
    ensures
        0 <= decimal(s.take(k)) <= decimal(s),
    decreases s.len(),
{
    if k == s.len() {
        assert(s.take(k) =~= s);
        if s.len() > 0 {
            lemma_decimal_grows(s.drop_last(), k - 1);
            assert(s.drop_last().take(k - 1) =~= s.drop_last());
            assert(is_digit(s.last()));
        }
    } else {
        lemma_decimal_grows(s.drop_last(), k);
        assert(s.drop_last().take(k) =~= s.take(k));
        assert(is_digit(s.last()));
    }
}

/// The value of the digits behind `from`, where there are any, there is nothing else, and the
/// value is at most `limit`.
fn digits_value(chars: &Vec<char>, from: usize, limit: u64) -> (value: Option<u64>)
    requires
        from <= chars@.len(),
    ensures
        value == (if is_number(chars@.skip(from as int)) && decimal(chars@.skip(from as int))
            <= limit {
            Some(decimal(chars@.skip(from as int)) as u64)
        } else {
            None
        }),
{
    let ghost digits = chars@.skip(from as int);
    if from == chars.len() {
        return None;
    }
    let mut value: u128 = 0;
    let mut i = from;
    let limit_wide: u128 = limit as u128;
    let mut over = false;
    while i < chars.len()
        invariant
            from <= i <= chars@.len(),
            digits == chars@.skip(from as int),
            limit_wide == limit,
            forall|k: int| 0 <= k < i - from ==> is_digit(#[trigger] digits[k]),
            !over ==> value == decimal(digits.take(i - from)) && value <= limit_wide,
            over ==> decimal(digits.take(i - from)) > limit,
        decreases chars@.len() - i,
    {
        let c = chars[i];
        assert(c == digits[i - from]);
        if !('0' <= c && c <= '9') {
            assert(!is_digit(digits[i - from]));
            return None;
        }
        assert(digits.take(i + 1 - from).drop_last() =~= digits.take(i - from));
        proof {
            assert forall|k: int| 0 <= k < i + 1 - from implies is_digit(
                #[trigger] digits.take(i + 1 - from)[k],
            ) by {
                assert(is_digit(digits[k]));
            }
            lemma_decimal_grows(digits.take(i + 1 - from), i - from);
            assert(digits.take(i + 1 - from).take(i - from) =~= digits.take(i - from));
        }
        if !over {
            let next: u128 = 10 * value + (c as u128 - '0' as u128);
            if next > limit_wide {
                over = true;
            } else {
                value = next;
            }
        }
        i += 1;
    }
    assert(digits.take(i - from) =~= digits);
    if over {
        None
    } else {
        Some(value as u64)
    }
}

/// The number that `s` spells, where it is one that `usize` can hold.
pub fn parse_usize(s: &str) -> (n: Option<usize>)
    ensures
        n == (match in_range(unsigned_value(s@), 0, usize::MAX as int) {
            Some(v) => Some(v as usize),
            None => None,
        }),
{
    let chars = to_chars(s);
    let signed = chars.len() > 0 && chars[0] == '+';
    let from: usize = if signed {
        1
    } else {
        0
    };
    assert(s@.skip(0) =~= s@);
    proof {
        if is_number(chars@.skip(from as int)) {
            lemma_decimal_grows(chars@.skip(from as int), 0);
        }
    }
    match digits_value(&chars, from, usize::MAX as u64) {
        Some(v) => Some(v as usize),
        None => None,
    }
}

/// The number that `s` spells, where it is one that `i64` can hold.
pub fn parse_i64(s: &str) -> (n: Option<i64>)
    ensures
        n == (match in_range(signed_value(s@), i64::MIN as int, i64::MAX as int) {
            Some(v) => Some(v as i64),
            None => None,
        }),
{
    let chars = to_chars(s);
    let negative = chars.len() > 0 && chars[0] == '-';
    let signed = chars.len() > 0 && chars[0] == '+';
    let from: usize = if negative || signed {
        1
    } else {
        0
    };
    let limit: u64 = if negative {
        0x8000_0000_0000_0000
    } else {
        0x7fff_ffff_ffff_ffff
    };
    assert(s@.skip(0) =~= s@);
    proof {
        if is_number(chars@.skip(from as int)) {
            lemma_decimal_grows(chars@.skip(from as int), 0);
        }
    }
    match digits_value(&chars, from, limit) {
        Some(v) => if negative {
            if v == 0x8000_0000_0000_0000 {
                Some(i64::MIN)
            } else {
                Some(-(v as i64))
            }
        } else {
            Some(v as i64)
        },
        None => None,
    }
}

/// A string of `n` spaces.
pub fn spaces(n: usize) -> (s: String)
    ensures
        s@ == Seq::new(n as nat, |i: int| ' '),
{
    let mut s = String::new();
    let mut i: usize = 0;
    while i < n
        invariant
            i <= n,
            s@ =~= Seq::new(i as nat, |k: int| ' '),
        decreases n - i,
    {
        s.push(' ');
        i += 1;
    }
    s
}

// ---------------------------------------------------------------- laws

proof fn lemma_trim_end(s: Seq<char>)
    ensures
        trim_end(s).len() <= s.len(),
        trim_end(s) == s.take(trim_end(s).len() as int),
        trim_end(s).len() > 0 ==> !is_space(trim_end(s).last()),
    decreases s.len(),
{
    if s.len() > 0 && is_space(s.last()) {
        lemma_trim_end(s.drop_last());
        assert(s.drop_last().take(trim_end(s).len() as int) =~= s.take(trim_end(s).len() as int));
    } else {
        assert(s.take(s.len() as int) =~= s);
    }
}

proof fn lemma_trim_start(s: Seq<char>)
    ensures
        trim_start(s).len() <= s.len(),
        trim_start(s) == s.skip(s.len() - trim_start(s).len()),
        trim_start(s).len() > 0 ==> !is_space(trim_start(s)[0]),
    decreases s.len(),
{
    if s.len() > 0 && is_space(s[0]) {
        lemma_trim_start(s.skip(1));
        let n = trim_start(s).len();
        assert(s.skip(1).skip(s.len() - 1 - n) =~= s.skip(s.len() - n));
    } else {
        assert(s.skip(0) =~= s);
    }
}

/// Whether a text has neither line feeds nor white space at either end.
pub open spec fn is_tidy(s: Seq<char>) -> bool {
    &&& forall|k: int| 0 <= k < s.len() ==> #[trigger] s[k] != '\n'
    &&& s.len() > 0 ==> !is_space(s[0]) && !is_space(s.last())
}

proof fn lemma_trimmed_is_tidy(s: Seq<char>)
    requires
        forall|k: int| 0 <= k < s.len() ==> #[trigger] s[k] != '\n',
    ensures
        is_tidy(trimmed(s)),
{
    let t = trim_start(s);
    lemma_trim_start(s);
    lemma_trim_end(t);
    let u = trim_end(t);
    assert forall|k: int| 0 <= k < u.len() implies #[trigger] u[k] != '\n' by {
        assert(u[k] == t[k]);
        assert(t[k] == s[s.len() - t.len() + k]);
    }
    if u.len() > 0 {
        assert(u[0] == t[0]);
    }
}

proof fn lemma_tidy_is_trimmed(s: Seq<char>)
    requires
        is_tidy(s),
    ensures
        trimmed(s) == s,
{
}

proof fn lemma_lines_hold_no_feed(s: Seq<char>)
    ensures
        split_lines(s).len() > 0,
        forall|i: int, k: int|
            0 <= i < split_lines(s).len() && 0 <= k < split_lines(s)[i].len()
                ==> #[trigger] split_lines(s)[i][k] != '\n',
    decreases s.len(),
{
    if s.len() > 0 {
        lemma_lines_hold_no_feed(s.drop_last());
        let before = split_lines(s.drop_last());
        let after = split_lines(s);
        assert forall|i: int, k: int|
            0 <= i < after.len() && 0 <= k < after[i].len() implies #[trigger] after[i][k]
            != '\n' by {
            if i < before.len() - 1 || s.last() == '\n' {
                if i < before.len() {
                    assert(after[i] == before[i]);
                    assert(before[i][k] != '\n');
                }
            } else if k < before.last().len() {
                assert(before[before.len() - 1][k] != '\n');
            }
        }
    }
}

proof fn lemma_single_line(s: Seq<char>)
    requires
        forall|k: int| 0 <= k < s.len() ==> #[trigger] s[k] != '\n',
    ensures
        split_lines(s) == seq![s],
    decreases s.len(),
{
    if s.len() > 0 {
        assert forall|k: int| 0 <= k < s.drop_last().len() implies #[trigger] s.drop_last()[k]
            != '\n' by {
            assert(s[k] != '\n');
        }
        lemma_single_line(s.drop_last());
        assert(s[s.len() - 1] != '\n');
        assert(s.drop_last().push(s.last()) =~= s);
        assert(split_lines(s) =~= seq![s]);
    } else {
        assert(s =~= Seq::empty());
        assert(split_lines(s) =~= seq![s]);
    }
}

spec fn all_tidy(parts: Seq<Seq<char>>) -> bool {
    forall|i: int| 0 <= i < parts.len() ==> is_tidy(#[trigger] parts[i])
}

proof fn lemma_nonempty_tidy(parts: Seq<Seq<char>>)
    requires
        all_tidy(parts),
    ensures
        all_tidy(nonempty(parts)),
        forall|i: int| 0 <= i < nonempty(parts).len() ==> (#[trigger] nonempty(parts)[i]).len() > 0,
    decreases parts.len(),
{
    if parts.len() > 0 {
        assert forall|i: int| 0 <= i < parts.drop_last().len() implies is_tidy(
            #[trigger] parts.drop_last()[i],
        ) by {
            assert(is_tidy(parts[i]));
        }
        lemma_nonempty_tidy(parts.drop_last());
        assert(is_tidy(parts[parts.len() - 1]));
    }
}

proof fn lemma_joined_tidy(parts: Seq<Seq<char>>)
    requires
        all_tidy(parts),
        forall|i: int| 0 <= i < parts.len() ==> (#[trigger] parts[i]).len() > 0,
    ensures
        is_tidy(joined(parts, " "@)),
        parts.len() > 0 ==> joined(parts, " "@).len() > 0,
    decreases parts.len(),
{
    if parts.len() == 1 {
        assert(is_tidy(parts[0]));
    } else if parts.len() > 1 {
        let fewer = parts.drop_last();
        assert forall|i: int| 0 <= i < fewer.len() implies is_tidy(#[trigger] fewer[i])
            && fewer[i].len() > 0 by {
            assert(is_tidy(parts[i]));
        }
        lemma_joined_tidy(fewer);
        let last = parts[parts.len() - 1];
        assert(is_tidy(last) && last.len() > 0);
        reveal_strlit(" ");
        let head = joined(fewer, " "@);
        let all = head + " "@ + last;
        assert forall|k: int| 0 <= k < all.len() implies #[trigger] all[k] != '\n' by {
            if k < head.len() {
                assert(all[k] == head[k]);
            } else if k > head.len() {
                assert(all[k] == last[k - head.len() - 1]);
            }
        }
        assert(all[0] == head[0]);
        assert(all.last() == last.last());
    }
}

/// A cleaned text is one line without white space at either end.
pub proof fn law_clean_text_is_one_line(text: Seq<char>)
    ensures
        is_tidy(joined(tidy_lines(text), " "@)),
{
    lemma_lines_hold_no_feed(text);
    let lines = split_lines(text);
    let parts = lines.map_values(|l: Seq<char>| trimmed(l));
    assert forall|i: int| 0 <= i < parts.len() implies is_tidy(#[trigger] parts[i]) by {
        assert forall|k: int| 0 <= k < lines[i].len() implies #[trigger] lines[i][k] != '\n' by {}
        lemma_trimmed_is_tidy(lines[i]);
    }
    lemma_nonempty_tidy(parts);
    lemma_joined_tidy(nonempty(parts));
}

/// Cleaning a cleaned text changes nothing.
pub proof fn law_cleaning_twice_is_cleaning_once(text: Seq<char>)
    ensures
        ({
            let clean = joined(tidy_lines(text), " "@);
            joined(tidy_lines(clean), " "@) == clean
        }),
{
    let clean = joined(tidy_lines(text), " "@);
    law_clean_text_is_one_line(text);
    lemma_single_line(clean);
    lemma_tidy_is_trimmed(clean);
    let parts = split_lines(clean).map_values(|l: Seq<char>| trimmed(l));
    assert(parts =~= seq![clean]);
    assert(parts.drop_last() =~= Seq::<Seq<char>>::empty());
    assert(nonempty(Seq::<Seq<char>>::empty()) =~= Seq::empty());
    if clean.len() == 0 {
        assert(nonempty(parts) =~= Seq::empty());
        assert(clean =~= Seq::empty());
    } else {
        assert(nonempty(parts) =~= seq![clean]);
    }
}

/// A text without trailing white space ends in something else, or is empty.
pub proof fn law_trimmed_end(text: Seq<char>)
    ensures
        trim_end(text).len() > 0 ==> !is_space(trim_end(text).last()),
        trim_end(text).is_prefix_of(text),
{
    lemma_trim_end(text);
}

} // verus!
