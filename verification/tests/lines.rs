use fleischwolf::lines::{
    applicable, contract, is_ligature, is_punct_or_space, is_right_to_left, is_rtl_char,
    line_cells, pass_ltr, pass_rtl, start_cells, Answer, Cell, Glyph, Question, Span,
};

/// Glyphs of one line: each character with its left and its right edge.
fn glyphs(line: &[(char, f64, f64)]) -> Vec<Glyph> {
    line.iter()
        .map(|g| Glyph {
            ch: g.0,
            font: 1,
            placed: g.1.is_finite(),
            narrow: (g.2 - g.1).abs() < 0.5,
        })
        .collect()
}

/// Answers by the edges of the glyphs: a gap of a whole character is too wide for a merge, one of
/// a third is wide enough for a space.
fn by_edges(line: Vec<(char, f64, f64)>) -> impl Fn(Question) -> Answer {
    move |q: Question| {
        let length = (line[q.measured.last].2 - line[q.measured.first].1).abs();
        let width = length / q.chars as f64;
        let gap = line[q.to.first].1 - line[q.from.last].2;
        Answer {
            adjacent: gap.abs() < width,
            wide: 0.33 * width < gap,
        }
    }
}

fn texts(line: &[(char, f64, f64)]) -> Vec<(String, usize, usize)> {
    let edges = line.to_vec();
    let same = move |a: usize, b: usize| {
        (edges[a].1 - edges[b].1).abs() < 0.5 && (edges[a].2 - edges[b].2).abs() < 0.5
    };
    line_cells(&glyphs(line), &same, &by_edges(line.to_vec()))
        .into_iter()
        .map(|l| (l.text, l.span.first, l.span.last))
        .collect()
}

fn cell(text: &str, at: usize, font: u64) -> Cell {
    Cell {
        text: text.to_string(),
        span: Span {
            first: at,
            last: at,
        },
        ltr: !is_right_to_left(text),
        active: true,
        lig_carry: false,
        font,
    }
}

const NEVER: Answer = Answer {
    adjacent: false,
    wide: false,
};

#[test]
fn words_get_one_space() {
    let line = [
        ('a', 0.0, 10.0),
        ('b', 10.0, 20.0),
        ('c', 25.0, 35.0),
        ('d', 80.0, 90.0),
    ];
    assert_eq!(
        texts(&line),
        vec![("ab c".to_string(), 0, 2), ("d".to_string(), 3, 3)]
    );
}

#[test]
fn ligatures_are_one_cell() {
    let line = [
        ('o', 0.0, 10.0),
        ('f', 10.0, 20.0),
        ('f', 10.0, 20.0),
        ('i', 10.1, 20.2),
        ('c', 20.0, 30.0),
    ];
    let same = |a: usize, b: usize| b >= 1 && b <= 3 && a >= 1 && a <= 3;
    let cells = start_cells(&glyphs(&line), &same);
    assert_eq!(cells.len(), 3);
    assert_eq!(cells[1].text, "ffi");
    assert_eq!(cells[1].span, Span { first: 1, last: 1 });
    assert_eq!(texts(&line), vec![("offic".to_string(), 0, 4)]);
}

#[test]
fn glyphs_without_a_place_and_narrow_spaces_are_left_out() {
    let line = [
        ('a', 0.0, 10.0),
        (' ', 12.0, 12.2),
        ('x', f64::NAN, 12.0),
        ('b', 14.0, 24.0),
        (' ', 24.0, 30.0),
        ('c', 31.0, 41.0),
    ];
    assert_eq!(texts(&line), vec![("a b c".to_string(), 0, 5)]);
    let kept = [line[0], line[3], line[4], line[5]];
    assert_eq!(texts(&kept), vec![("a b c".to_string(), 0, 3)]);
    assert!(texts(&[line[1], line[2]]).is_empty());
}

#[test]
fn right_to_left_text_is_put_in_front() {
    let line = [
        ('\u{5d0}', 0.0, 10.0),
        ('\u{5d1}', 10.0, 20.0),
        ('\u{5d2}', 25.0, 35.0),
    ];
    assert_eq!(
        texts(&line),
        vec![("\u{5d2} \u{5d1}\u{5d0}".to_string(), 0, 2)]
    );
}

#[test]
fn the_last_pass_merges_against_the_order() {
    // The second cell lies to the left of the first one.
    let against = |q: Question| {
        if q.from.first == 1 && q.to.first == 0 {
            Answer {
                adjacent: true,
                wide: true,
            }
        } else {
            NEVER
        }
    };
    let mut cells = vec![cell("a", 0, 1), cell("b", 1, 1)];
    pass_ltr(&mut cells, false, &against);
    assert!(cells[0].active && cells[1].active);
    pass_rtl(&mut cells, &against);
    assert!(cells[0].active && cells[1].active);
    pass_ltr(&mut cells, true, &against);
    assert!(!cells[0].active);
    assert_eq!(cells[1].text, "b a");
    let mut again = vec![cell("a", 0, 1), cell("b", 1, 1)];
    contract(&mut again, &against);
    assert_eq!(again.len(), 1);
    assert_eq!(again[0].text, "b a");
    assert_eq!(again[0].span, Span { first: 1, last: 0 });
}

#[test]
fn the_second_pass_merges_from_the_right() {
    // Measured by the wider cell on the right, the gap is small enough.
    let measured_right = |q: Question| {
        if q.measured.first == 1 && q.from.first == 0 {
            Answer {
                adjacent: true,
                wide: false,
            }
        } else {
            NEVER
        }
    };
    let mut cells = vec![cell("a", 0, 1), cell("b", 1, 1)];
    pass_ltr(&mut cells, false, &measured_right);
    assert!(cells[1].active);
    pass_rtl(&mut cells, &measured_right);
    assert!(!cells[1].active);
    assert_eq!(cells[0].text, "ab");
}

#[test]
fn the_first_passes_keep_the_order() {
    let all = |_: Question| Answer {
        adjacent: true,
        wide: true,
    };
    let mut cells = vec![cell("ab", 0, 1), cell("c", 1, 1), cell("de", 2, 1)];
    pass_ltr(&mut cells, false, &all);
    assert_eq!(cells[0].text, "ab c de");
    assert!(!cells[1].active && !cells[2].active);
    let mut cells = vec![cell("ab", 0, 1), cell("c", 1, 1), cell("de", 2, 1)];
    pass_rtl(&mut cells, &all);
    assert_eq!(cells[0].text, "ab c de");
}

#[test]
fn a_ligature_relaxes_the_next_question() {
    let asked = |q: Question| Answer {
        adjacent: true,
        wide: q.relaxed,
    };
    let mut cells = vec![
        cell("a", 0, 1),
        cell("fi", 1, 2),
        cell("b", 2, 1),
        cell("c", 3, 1),
    ];
    contract(&mut cells, &asked);
    assert_eq!(cells.len(), 1);
    assert_eq!(cells[0].text, "a fi bc");
    assert_eq!(cells[0].font, 1);
}

#[test]
fn fonts_and_directions_keep_cells_apart() {
    assert!(applicable(&cell("a", 0, 1), &cell("b", 1, 1)));
    assert!(!applicable(&cell("a", 0, 1), &cell("b", 1, 2)));
    assert!(applicable(&cell("a", 0, 0), &cell("b", 1, 2)));
    assert!(applicable(&cell("ffl", 0, 1), &cell("b", 1, 2)));
    assert!(!applicable(&cell("a", 0, 1), &cell("\u{627}", 1, 1)));
    assert!(applicable(&cell(".", 0, 1), &cell("\u{627}", 1, 1)));
    let mut gone = cell("a", 0, 1);
    gone.active = false;
    assert!(!applicable(&gone, &cell("b", 1, 1)));
    assert!(!applicable(&cell("b", 1, 1), &gone));
}

#[test]
fn a_merge_extends_the_right_end() {
    let mut a = cell("a", 3, 7);
    a.merge_with(&cell("b", 5, 9), true);
    assert_eq!(a.text, "a b");
    assert_eq!(a.span, Span { first: 3, last: 5 });
    assert!(a.ltr);
    assert_eq!(a.font, 7);
    a.merge_with(&cell("\u{627}", 6, 9), false);
    assert_eq!(a.text, "\u{627}a b");
    assert!(!a.ltr);
    assert!(a.same_orientation(&cell("\u{628}", 0, 0)));
    assert!(!a.same_orientation(&cell("xy", 0, 0)));
}

#[test]
fn scripts_marks_and_ligatures() {
    for c in ['\u{590}', '\u{7ff}', '\u{8a0}', '\u{fb1d}', '\u{fdff}', '\u{fe70}', '\u{feff}'] {
        assert!(is_rtl_char(c));
    }
    for c in ['a', '\u{58f}', '\u{800}', '\u{89f}', '\u{900}', '\u{fb1c}', '\u{fe00}', '\u{ff00}'] {
        assert!(!is_rtl_char(c));
    }
    assert!(is_right_to_left("\u{5d0}\u{627}"));
    assert!(!is_right_to_left("\u{5d0}a"));
    assert!(!is_right_to_left(""));
    for s in [" ", ".", "\"", "\u{2019}", "\u{2014}", "\\", ">", "\u{3001}", "\u{ff5e}", "\u{b}"] {
        assert!(is_punct_or_space(s), "{}", s);
    }
    for s in ["", "a", "..", "$", "~", "\u{ff10}", "\u{2070}"] {
        assert!(!is_punct_or_space(s), "{}", s);
    }
    for s in ["ff", "fi", "fl", "ffi", "ffl", "\u{fb00}", "x\u{fb06}y"] {
        assert!(is_ligature(s));
    }
    for s in ["", "f", "fj", "ffx", "\u{fb07}"] {
        assert!(!is_ligature(s));
    }
}

#[test]
fn only_shown_glyphs_are_asked_about() {
    let line = [
        ('x', f64::NAN, 1.0),
        ('a', 0.0, 10.0),
        (' ', 12.0, 12.2),
        ('b', 14.0, 24.0),
        ('y', f64::INFINITY, 2.0),
    ];
    let shown = |i: usize| i == 1 || i == 3;
    let same = move |a: usize, b: usize| {
        assert!(shown(a) && shown(b));
        false
    };
    let edges = by_edges(line.to_vec());
    let answer = move |q: Question| {
        for span in [q.measured, q.from, q.to] {
            assert!(shown(span.first) && shown(span.last));
        }
        edges(q)
    };
    let lines = line_cells(&glyphs(&line), &same, &answer);
    assert_eq!(lines.len(), 1);
    assert_eq!(lines[0].span, Span { first: 1, last: 3 });
}

#[test]
fn no_character_is_lost() {
    let line: Vec<(char, f64, f64)> = "so ist es, sagte sie"
        .chars()
        .enumerate()
        .map(|(i, c)| (c, 7.0 * i as f64 + (i % 3) as f64, 7.0 * i as f64 + 6.0))
        .collect();
    let found = texts(&line);
    let mut before: Vec<char> = line.iter().map(|g| g.0).filter(|c| *c != ' ').collect();
    let mut after: Vec<char> = found
        .iter()
        .flat_map(|l| l.0.chars())
        .filter(|c| *c != ' ')
        .collect();
    before.sort();
    after.sort();
    assert_eq!(before, after);
}
