use retest::collect::find_matches;
use retest::label::{list_label, to_decimal};
use retest::palette::Color;
use retest::region::Region;
use retest::render::{render_highlighted, render_list, Piece};
use retest::span::{CaptureList, Span};

fn span(start: usize, end: usize) -> Option<Span> {
    Some(Span { start, end })
}

fn list(groups: Vec<Option<Span>>) -> CaptureList {
    CaptureList::new(groups).unwrap()
}

fn plain(start: usize, end: usize) -> Piece {
    Piece { start, end, color: None }
}

fn colored(start: usize, end: usize, color: Color) -> Piece {
    Piece { start, end, color: Some(color) }
}

fn shown(subject: &str, pieces: &[Piece]) -> String {
    pieces.iter().map(|p| &subject[p.start..p.end]).collect()
}

#[test]
fn subject_without_match_is_one_plain_piece() {
    let pieces = render_highlighted("no match here", &vec![]);
    assert_eq!(pieces, vec![plain(0, 13)]);
    assert_eq!(shown("no match here", &pieces), "no match here");
}

#[test]
fn empty_subject_without_match_shows_nothing() {
    assert_eq!(render_highlighted("", &vec![]), vec![]);
}

#[test]
fn unmatched_text_stays_plain_around_the_match() {
    let records = find_matches("(a)(b)", "xaby").unwrap();
    let pieces = render_highlighted("xaby", &records);
    assert_eq!(
        pieces,
        vec![
            plain(0, 1),
            colored(1, 1, Color::Blue),
            colored(1, 2, Color::Green),
            colored(2, 2, Color::Blue),
            colored(2, 3, Color::Magenta),
            colored(3, 3, Color::Blue),
            plain(3, 4),
        ]
    );
    assert_eq!(shown("xaby", &pieces), "xaby");
}

#[test]
fn match_at_the_end_leaves_no_trailing_piece() {
    let pieces = render_highlighted("xab", &vec![list(vec![span(1, 3)])]);
    assert_eq!(pieces, vec![plain(0, 1), colored(1, 3, Color::Blue)]);
}

#[test]
fn match_at_the_start_has_an_empty_piece_before_it() {
    let pieces = render_highlighted("abx", &vec![list(vec![span(0, 2)])]);
    assert_eq!(pieces, vec![plain(0, 0), colored(0, 2, Color::Blue), plain(2, 3)]);
}

#[test]
fn pieces_of_several_matches_rise_and_cover_the_subject() {
    let subject = "key=value; other=thing; last";
    let records = find_matches("(\\w+)=(\\w+)", subject).unwrap();
    assert_eq!(records.len(), 2);
    let pieces = render_highlighted(subject, &records);
    assert_eq!(pieces[0].start, 0);
    assert_eq!(pieces[pieces.len() - 1].end, subject.len());
    for pair in pieces.windows(2) {
        assert_eq!(pair[0].end, pair[1].start);
    }
    for i in 0..pieces.len() {
        assert!(pieces[i].start <= pieces[i].end);
        for j in i + 1..pieces.len() {
            assert!(pieces[i].end <= pieces[j].start);
            if pieces[i].start < pieces[i].end {
                assert!(pieces[i].start < pieces[j].start);
            }
        }
    }
    assert_eq!(shown(subject, &pieces), subject);
    let unmatched: Vec<&str> = pieces
        .iter()
        .filter(|p| p.color.is_none())
        .map(|p| &subject[p.start..p.end])
        .collect();
    assert_eq!(unmatched, vec!["", "; ", "; last"]);
}

#[test]
fn each_match_starts_with_the_first_color_again() {
    let records = find_matches("(a)", "a-a").unwrap();
    let pieces = render_highlighted("a-a", &records);
    assert_eq!(
        pieces,
        vec![
            plain(0, 0),
            colored(0, 0, Color::Blue),
            colored(0, 1, Color::Green),
            colored(1, 1, Color::Blue),
            plain(1, 2),
            colored(2, 2, Color::Blue),
            colored(2, 3, Color::Green),
            colored(3, 3, Color::Blue),
        ]
    );
}

#[test]
fn list_without_match_has_no_line() {
    assert!(render_list(&vec![]).is_empty());
}

#[test]
fn list_has_one_line_for_each_match() {
    let records = find_matches("a(b)c", "xabcy abc").unwrap();
    let lines = render_list(&records);
    assert_eq!(lines.len(), 2);
    assert_eq!(lines[0].label, "1.   [1-4]          ");
    assert_eq!(
        lines[0].regions,
        vec![
            Region { start: 1, end: 2, color: Color::Blue },
            Region { start: 2, end: 3, color: Color::Green },
            Region { start: 3, end: 4, color: Color::Blue },
        ]
    );
    assert_eq!(lines[1].label, "2.   [6-9]          ");
    assert_eq!(
        lines[1].regions,
        vec![
            Region { start: 6, end: 7, color: Color::Blue },
            Region { start: 7, end: 8, color: Color::Green },
            Region { start: 8, end: 9, color: Color::Blue },
        ]
    );
}

#[test]
fn decimal_numerals() {
    assert_eq!(to_decimal(0), "0");
    assert_eq!(to_decimal(7), "7");
    assert_eq!(to_decimal(10), "10");
    assert_eq!(to_decimal(1234567890), "1234567890");
    assert_eq!(to_decimal(usize::MAX), format!("{}", usize::MAX));
}

#[test]
fn label_columns_are_filled_with_spaces() {
    assert_eq!(list_label(1, Span { start: 1, end: 4 }), "1.   [1-4]          ");
    assert_eq!(list_label(12, Span { start: 100, end: 2000 }), "12.  [100-2000]     ");
    for (ordinal, start, end) in [(1usize, 0usize, 0usize), (9, 5, 17), (123, 45678, 45679)] {
        let expected = format!(
            "{:<4} {:<14} ",
            format!("{}.", ordinal),
            format!("[{}-{}]", start, end)
        );
        assert_eq!(list_label(ordinal, Span { start, end }), expected);
    }
}

#[test]
fn label_wider_than_its_column_stays_whole() {
    assert_eq!(list_label(1000, Span { start: 0, end: 1 }), "1000. [0-1]          ");
    assert_eq!(
        list_label(3, Span { start: 1234567, end: 12345678 }),
        "3.   [1234567-12345678] "
    );
}
