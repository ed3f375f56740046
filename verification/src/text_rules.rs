//! Laws of strings: what white space is, what trimming, joining and splitting give, and which
//! number a text spells.

use vstd::prelude::*;

use crate::text::{
    decimal, in_range, is_digit, is_number, is_space, joined, nonempty, signed_value, split_lines,
    tidy_lines, trim_end, trim_start, trimmed, unsigned_value,
};

verus! {

// ---------------------------------------------------------------- white space

/// White space is what Unicode says it is.
pub proof fn law_white_space(c: char)
    ensures
        is_space(c) <==> {
            ||| 0x9 <= c as int <= 0xd
            ||| c as int == 0x20
            ||| c as int == 0x85
            ||| c as int == 0xa0
            ||| c as int == 0x1680
            ||| 0x2000 <= c as int <= 0x200a
            ||| c as int == 0x2028
            ||| c as int == 0x2029
            ||| c as int == 0x202f
            ||| c as int == 0x205f
            ||| c as int == 0x3000
        },
{
}

/// Whether a text is white space through and through.
pub open spec fn blank(s: Seq<char>) -> bool {
    forall|i: int| 0 <= i < s.len() ==> is_space(#[trigger] s[i])
}

/// Whether a text is empty, or neither begins nor ends with white space.
pub open spec fn tight(s: Seq<char>) -> bool {
    s.len() == 0 || (!is_space(s[0]) && !is_space(s[s.len() - 1]))
}

proof fn lemma_trim_end(mid: Seq<char>, tail: Seq<char>)
    requires
        blank(tail),
        mid.len() == 0 || !is_space(mid[mid.len() - 1]),
    ensures
        trim_end(mid + tail) == mid,
    decreases tail.len(),
{
    let s = mid + tail;
    if tail.len() == 0 {
        assert(s =~= mid);
    } else {
        assert(s.last() == tail[tail.len() - 1]);
        assert(s.drop_last() =~= mid + tail.drop_last());
        assert(blank(tail.drop_last()));
        lemma_trim_end(mid, tail.drop_last());
    }
}

proof fn lemma_trim_start(head: Seq<char>, rest: Seq<char>)
    requires
        blank(head),
        rest.len() == 0 || !is_space(rest[0]),
    ensures
        trim_start(head + rest) == rest,
    decreases head.len(),
{
    let s = head + rest;
    if head.len() == 0 {
        assert(s =~= rest);
    } else {
        assert(s[0] == head[0]);
        assert(s.skip(1) =~= head.skip(1) + rest);
        assert forall|i: int| 0 <= i < head.skip(1).len() implies is_space(
            #[trigger] head.skip(1)[i],
        ) by {
            assert(is_space(head[i + 1]));
        }
        lemma_trim_start(head.skip(1), rest);
    }
}

/// Trimming takes away the white space at both ends, all of it and nothing else.
pub proof fn law_trimming_takes_the_ends(head: Seq<char>, mid: Seq<char>, tail: Seq<char>)
    requires
        blank(head),
        blank(tail),
        tight(mid),
    ensures
        trimmed(head + mid + tail) == mid,
        trim_end(head + mid + tail) == (if mid.len() == 0 {
            Seq::empty()
        } else {
            head + mid
        }),
{
    if mid.len() == 0 {
        let s = head + mid + tail;
        assert(blank(s)) by {
            assert forall|i: int| 0 <= i < s.len() implies is_space(#[trigger] s[i]) by {
                if i < head.len() {
                    assert(s[i] == head[i]);
                } else {
                    assert(s[i] == tail[i - head.len()]);
                }
            }
        }
        assert(s =~= s + mid);
        lemma_trim_start(s, mid);
        assert(s =~= mid + s);
        lemma_trim_end(mid, s);
        assert(mid =~= Seq::empty());
    } else {
        assert(head + mid + tail =~= head + (mid + tail));
        lemma_trim_start(head, mid + tail);
        lemma_trim_end(mid, tail);
        lemma_trim_end(head + mid, tail);
    }
}

// ---------------------------------------------------------------- joining

/// Joining puts the separator between neighbours, and nothing before the first or behind the last.
pub proof fn law_separators_stand_between(
    parts: Seq<Seq<char>>,
    part: Seq<char>,
    sep: Seq<char>,
)
    ensures
        joined(Seq::empty(), sep).len() == 0,
        joined(parts.push(part), sep) == (if parts.len() == 0 {
            part
        } else {
            joined(parts, sep) + sep + part
        }),
{
    assert(parts.push(part).drop_last() =~= parts);
}

/// The empty parts are left out, and the others stay in their order.
pub proof fn law_empty_parts_are_left_out(parts: Seq<Seq<char>>, part: Seq<char>)
    ensures
        nonempty(Seq::empty()).len() == 0,
        nonempty(parts.push(part)) == (if part.len() == 0 {
            nonempty(parts)
        } else {
            nonempty(parts).push(part)
        }),
{
    assert(parts.push(part).drop_last() =~= parts);
}

// ---------------------------------------------------------------- lines

proof fn lemma_join_grows(parts: Seq<Seq<char>>, c: char, sep: Seq<char>)
    requires
        parts.len() > 0,
    ensures
        joined(parts.drop_last().push(parts.last().push(c)), sep) == joined(parts, sep).push(c),
{
    let more = parts.drop_last().push(parts.last().push(c));
    assert(more.drop_last() =~= parts.drop_last());
    if parts.len() > 1 {
        assert(joined(more, sep) =~= joined(parts, sep).push(c));
    }
}

/// The lines of a text hold no line feed, and joined with line feeds they are the text again.
pub proof fn law_lines_join_to_the_text(s: Seq<char>)
    ensures
        split_lines(s).len() > 0,
        joined(split_lines(s), seq!['\n']) == s,
        forall|k: int|
            0 <= k < split_lines(s).len() ==> !(#[trigger] split_lines(s)[k]).contains('\n'),
    decreases s.len(),
{
    if s.len() == 0 {
        assert(joined(split_lines(s), seq!['\n']) =~= s);
    } else {
        let before = split_lines(s.drop_last());
        law_lines_join_to_the_text(s.drop_last());
        let all = split_lines(s);
        if s.last() == '\n' {
            assert(all.drop_last() =~= before);
            assert(joined(all, seq!['\n']) =~= s);
        } else {
            lemma_join_grows(before, s.last(), seq!['\n']);
            assert(joined(all, seq!['\n']) =~= s);
        }
        assert forall|k: int| 0 <= k < all.len() implies !(#[trigger] all[k]).contains('\n') by {
            if s.last() == '\n' {
                if k < before.len() {
                    assert(all[k] == before[k]);
                }
            } else if k < before.len() - 1 {
                assert(all[k] == before[k]);
            } else {
                let line = before[before.len() - 1];
                if line.push(s.last()).contains('\n') {
                    let i = choose|i: int|
                        0 <= i < line.push(s.last()).len() && line.push(s.last())[i] == '\n';
                    assert(line[i] == '\n');
                }
            }
        }
    }
}

proof fn lemma_split_line(s: Seq<char>, line: Seq<char>)
    requires
        !line.contains('\n'),
    ensures
        split_lines(line) == seq![line],
        split_lines(s.push('\n') + line) == split_lines(s).push(line),
    decreases line.len(),
{
    if line.len() == 0 {
        assert(line =~= Seq::empty());
        assert(s.push('\n') + line =~= s.push('\n'));
        assert(s.push('\n').drop_last() =~= s);
        assert(split_lines(line) =~= seq![line]);
    } else {
        let short = line.drop_last();
        assert(!short.contains('\n')) by {
            if short.contains('\n') {
                let i = choose|i: int| 0 <= i < short.len() && short[i] == '\n';
                assert(line[i] == '\n');
            }
        }
        lemma_split_line(s, short);
        assert(line[line.len() - 1] != '\n');
        assert(line =~= short.push(line.last()));
        let whole = s.push('\n') + line;
        assert(whole.drop_last() =~= s.push('\n') + short);
        assert(split_lines(whole) =~= split_lines(s).push(line));
        assert(split_lines(line) =~= seq![line]);
    }
}

/// Tidying trims every line and leaves the blank ones out.
pub proof fn law_tidying_trims_each_line(s: Seq<char>, line: Seq<char>)
    requires
        !line.contains('\n'),
    ensures
        tidy_lines(line) == (if trimmed(line).len() == 0 {
            Seq::empty()
        } else {
            seq![trimmed(line)]
        }),
        tidy_lines(s.push('\n') + line) == (if trimmed(line).len() == 0 {
            tidy_lines(s)
        } else {
            tidy_lines(s).push(trimmed(line))
        }),
{
    lemma_split_line(s, line);
    let f = |l: Seq<char>| trimmed(l);
    let lines = split_lines(s);
    assert(lines.push(line).map_values(f) =~= lines.map_values(f).push(trimmed(line)));
    assert(lines.map_values(f).push(trimmed(line)).drop_last() =~= lines.map_values(f));
    assert(seq![line].map_values(f) =~= Seq::<Seq<char>>::empty().push(trimmed(line)));
    assert(Seq::<Seq<char>>::empty().push(trimmed(line)).drop_last() =~= Seq::<
        Seq<char>,
    >::empty());
    assert(nonempty(Seq::empty()) =~= Seq::empty());
}

// ---------------------------------------------------------------- numbers

/// The character of a decimal digit.
pub open spec fn figure(d: int) -> char {
    if d == 0 {
        '0'
    } else if d == 1 {
        '1'
    } else if d == 2 {
        '2'
    } else if d == 3 {
        '3'
    } else if d == 4 {
        '4'
    } else if d == 5 {
        '5'
    } else if d == 6 {
        '6'
    } else if d == 7 {
        '7'
    } else if d == 8 {
        '8'
    } else {
        '9'
    }
}

proof fn lemma_more_digits(s: Seq<char>, d: int)
    requires
        0 <= d <= 9,
    ensures
        is_number(s.push(figure(d))) <==> s.len() == 0 || is_number(s),
        decimal(s.push(figure(d))) == 10 * decimal(s) + d,
{
    let more = s.push(figure(d));
    assert(more.drop_last() =~= s);
    if is_number(more) && s.len() > 0 {
        assert forall|i: int| 0 <= i < s.len() implies is_digit(#[trigger] s[i]) by {
            assert(is_digit(more[i]));
        }
    }
}

/// A single digit spells its value, and a further digit behind a number makes it ten times as
/// large, and adds the digit. A sign in front of a first digit does not count among the digits, and
/// a minus sign turns the number round.
pub proof fn law_numbers_grow_by_digits(s: Seq<char>, d: int)
    requires
        0 <= d <= 9,
    ensures
        unsigned_value(seq![figure(d)]) == Some(d),
        unsigned_value(seq!['+', figure(d)]) == Some(d),
        signed_value(seq![figure(d)]) == Some(d),
        signed_value(seq!['+', figure(d)]) == Some(d),
        signed_value(seq!['-', figure(d)]) == Some(-d),
        unsigned_value(s) is Some ==> unsigned_value(s.push(figure(d))) == Some(
            10 * unsigned_value(s)->0 + d,
        ),
        signed_value(s) is Some && s[0] != '-' ==> signed_value(s.push(figure(d))) == Some(
            10 * signed_value(s)->0 + d,
        ),
        signed_value(s) is Some && s[0] == '-' ==> signed_value(s.push(figure(d))) == Some(
            10 * signed_value(s)->0 - d,
        ),
{
    let none = Seq::<char>::empty();
    lemma_more_digits(none, d);
    assert(none.push(figure(d)) =~= seq![figure(d)]);
    assert(seq!['+', figure(d)].skip(1) =~= seq![figure(d)]);
    assert(seq!['-', figure(d)].skip(1) =~= seq![figure(d)]);
    lemma_more_digits(s, d);
    if s.len() > 0 {
        lemma_more_digits(s.skip(1), d);
        assert(s.push(figure(d)).skip(1) =~= s.skip(1).push(figure(d)));
    }
}

/// What is no digit spells no number: the empty text, a sign alone, any other character at the
/// front, and anything but digits behind it. A minus sign is no sign of an unsigned number.
pub proof fn law_other_texts_spell_no_number(s: Seq<char>, k: int)
    requires
        s.len() == 0 || (s.len() == 1 && (s[0] == '+' || s[0] == '-')) || (0 <= k < s.len() && !(
        '0' <= s[k] <= '9') && (k == 0 ==> s[0] != '+' && s[0] != '-')),
    ensures
        unsigned_value(s) is None,
        signed_value(s) is None,
{
    if s.len() > 1 || (s.len() == 1 && s[0] != '+' && s[0] != '-') {
        assert(!is_digit(s[k]));
        if k > 0 {
            assert(s.skip(1)[k - 1] == s[k]);
        }
    }
}

/// An unsigned number has no minus sign.
pub proof fn law_unsigned_numbers_have_no_minus(s: Seq<char>)
    requires
        s.len() > 0,
        s[0] == '-',
    ensures
        unsigned_value(s) is None,
{
    assert(!is_digit(s[0]));
}

/// A number counts where it lies between the bounds, the bounds included.
pub proof fn law_numbers_within_bounds(n: int, low: int, high: int)
    ensures
        in_range(None, low, high) is None,
        low <= n <= high ==> in_range(Some(n), low, high) == Some(n),
        n < low || n > high ==> in_range(Some(n), low, high) is None,
{
}

} // verus!
