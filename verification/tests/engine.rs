use retest::nesting::is_well_nested;
use retest::palette::{color_at, Color};
use retest::region::{highlight, Region};
use retest::span::{CaptureList, Span};

fn span(start: usize, end: usize) -> Option<Span> {
    Some(Span { start, end })
}

fn list(groups: Vec<Option<Span>>) -> CaptureList {
    CaptureList::new(groups).unwrap()
}

fn region(start: usize, end: usize, color: Color) -> Region {
    Region { start, end, color }
}

fn bounds(regions: &[Region]) -> Vec<(usize, usize)> {
    regions.iter().map(|r| (r.start, r.end)).collect()
}

fn visible(regions: &[Region]) -> Vec<(usize, usize)> {
    regions.iter().filter(|r| r.start < r.end).map(|r| (r.start, r.end)).collect()
}

fn joined(text: &str, regions: &[Region]) -> String {
    regions.iter().map(|r| &text[r.start..r.end]).collect()
}

#[test]
fn palette_cycles_through_four_colors() {
    assert_eq!(color_at(0), Color::Blue);
    assert_eq!(color_at(1), Color::Green);
    assert_eq!(color_at(2), Color::Magenta);
    assert_eq!(color_at(3), Color::Yellow);
    assert_eq!(color_at(4), Color::Blue);
    assert_eq!(color_at(7), Color::Yellow);
}

#[test]
fn capture_list_needs_the_whole_match() {
    assert!(CaptureList::new(vec![]).is_none());
    assert!(CaptureList::new(vec![None]).is_none());
    assert!(CaptureList::new(vec![None, span(0, 1)]).is_none());
    assert!(CaptureList::new(vec![span(0, 1)]).is_some());
}

#[test]
fn capture_list_refuses_a_backward_span() {
    assert!(CaptureList::new(vec![span(3, 2)]).is_none());
    assert!(CaptureList::new(vec![span(0, 5), None, span(4, 3)]).is_none());
    assert!(CaptureList::new(vec![span(0, 5), None, span(3, 3)]).is_some());
}

#[test]
fn capture_list_hands_out_its_groups() {
    let captures = list(vec![span(1, 4), None, span(2, 3)]);
    assert_eq!(captures.len(), 3);
    assert_eq!(captures.whole(), Span { start: 1, end: 4 });
    assert_eq!(captures.get(0), span(1, 4));
    assert_eq!(captures.get(1), None);
    assert_eq!(captures.get(2), span(2, 3));
    assert_eq!(captures.get(3), None);
    assert_eq!(captures.groups(), &vec![span(1, 4), None, span(2, 3)]);
    let copy = captures.clone();
    assert_eq!(copy.groups(), captures.groups());
}

#[test]
fn whole_match_alone_is_one_region() {
    let regions = highlight(&list(vec![span(2, 9)]));
    assert_eq!(regions, vec![region(2, 9, Color::Blue)]);
}

#[test]
fn empty_whole_match_alone_is_one_empty_region() {
    let regions = highlight(&list(vec![span(5, 5)]));
    assert_eq!(regions, vec![region(5, 5, Color::Blue)]);
}

#[test]
fn inner_group_splits_the_match_in_three() {
    let regions = highlight(&list(vec![span(1, 4), span(2, 3)]));
    assert_eq!(
        regions,
        vec![region(1, 2, Color::Blue), region(2, 3, Color::Green), region(3, 4, Color::Blue)]
    );
}

#[test]
fn group_that_spans_the_match_leaves_empty_regions_at_its_edges() {
    let regions = highlight(&list(vec![span(0, 3), span(0, 3), span(1, 2)]));
    assert_eq!(
        regions,
        vec![
            region(0, 0, Color::Blue),
            region(0, 1, Color::Green),
            region(1, 2, Color::Magenta),
            region(2, 3, Color::Green),
            region(3, 3, Color::Blue),
        ]
    );
    assert_eq!(visible(&regions), vec![(0, 1), (1, 2), (2, 3)]);
}

#[test]
fn absent_group_takes_no_color_and_no_region() {
    let with_absent = highlight(&list(vec![span(0, 1), None, span(0, 1)]));
    let without = highlight(&list(vec![span(0, 1), span(0, 1)]));
    assert_eq!(with_absent, without);
    assert_eq!(
        with_absent,
        vec![region(0, 0, Color::Blue), region(0, 1, Color::Green), region(1, 1, Color::Blue)]
    );
    assert_eq!(visible(&with_absent), vec![(0, 1)]);
}

#[test]
fn removing_any_absent_group_keeps_the_regions() {
    let full = vec![span(0, 9), None, span(1, 4), None, None, span(2, 3), span(5, 8), None];
    let expected = highlight(&list(full.clone()));
    for index in 0..full.len() {
        if full[index].is_none() {
            let mut shorter = full.clone();
            shorter.remove(index);
            assert_eq!(highlight(&list(shorter)), expected);
        }
    }
}

#[test]
fn siblings_side_by_side_close_one_another() {
    let regions = highlight(&list(vec![span(1, 3), span(1, 2), span(2, 3)]));
    assert_eq!(
        regions,
        vec![
            region(1, 1, Color::Blue),
            region(1, 2, Color::Green),
            region(2, 2, Color::Blue),
            region(2, 3, Color::Magenta),
            region(3, 3, Color::Blue),
        ]
    );
    assert_eq!(visible(&regions), vec![(1, 2), (2, 3)]);
}

#[test]
fn colors_go_by_order_of_opening_and_wrap_around() {
    let captures = list(vec![
        span(0, 20),
        span(1, 3),
        span(4, 6),
        span(7, 9),
        span(10, 12),
        span(13, 15),
    ]);
    let regions = highlight(&captures);
    let colored: Vec<(usize, usize, Color)> = regions
        .iter()
        .filter(|r| r.start < r.end)
        .map(|r| (r.start, r.end, r.color))
        .collect();
    assert_eq!(
        colored,
        vec![
            (0, 1, Color::Blue),
            (1, 3, Color::Green),
            (3, 4, Color::Blue),
            (4, 6, Color::Magenta),
            (6, 7, Color::Blue),
            (7, 9, Color::Yellow),
            (9, 10, Color::Blue),
            (10, 12, Color::Blue),
            (12, 13, Color::Blue),
            (13, 15, Color::Green),
            (15, 20, Color::Blue),
        ]
    );
}

#[test]
fn deep_nesting_unwinds_from_the_inside() {
    let captures = list(vec![span(0, 10), span(1, 9), span(2, 8), span(3, 7)]);
    let regions = highlight(&captures);
    assert_eq!(
        regions,
        vec![
            region(0, 1, Color::Blue),
            region(1, 2, Color::Green),
            region(2, 3, Color::Magenta),
            region(3, 7, Color::Yellow),
            region(7, 8, Color::Magenta),
            region(8, 9, Color::Green),
            region(9, 10, Color::Blue),
        ]
    );
}

#[test]
fn regions_of_nested_captures_cover_the_match_text() {
    let text = "say (hello (big) world) now";
    let captures = list(vec![span(4, 23), span(5, 22), None, span(11, 16), span(12, 15)]);
    assert!(is_well_nested(&captures));
    let regions = highlight(&captures);
    assert_eq!(regions[0].start, 4);
    assert_eq!(regions[regions.len() - 1].end, 23);
    for pair in regions.windows(2) {
        assert_eq!(pair[0].end, pair[1].start);
    }
    for r in regions.iter() {
        assert!(r.start <= r.end);
    }
    assert_eq!(joined(text, &regions), &text[4..23]);
}

#[test]
fn regions_follow_one_another_even_where_spans_do_not_nest() {
    let captures = list(vec![span(0, 10), span(5, 8), span(2, 3)]);
    assert!(!is_well_nested(&captures));
    let regions = highlight(&captures);
    assert_eq!(regions[0].start, 0);
    for pair in regions.windows(2) {
        assert_eq!(pair[0].end, pair[1].start);
    }
    assert_eq!(bounds(&regions), vec![(0, 5), (5, 2), (2, 3), (3, 8), (8, 10)]);
}

#[test]
fn nesting_check_tells_lists_apart() {
    assert!(is_well_nested(&list(vec![span(0, 4)])));
    assert!(is_well_nested(&list(vec![span(0, 4), span(0, 4), None, span(1, 2), span(2, 4)])));
    // a span that reaches past the whole match
    assert!(!is_well_nested(&list(vec![span(1, 4), span(2, 5)])));
    assert!(!is_well_nested(&list(vec![span(1, 4), span(0, 2)])));
    // two spans that overlap in part
    assert!(!is_well_nested(&list(vec![span(0, 9), span(1, 5), span(3, 7)])));
    // the right one of two spans comes first
    assert!(!is_well_nested(&list(vec![span(0, 9), span(5, 6), span(1, 2)])));
    // an enclosing span comes after what it encloses
    assert!(!is_well_nested(&list(vec![span(0, 9), span(2, 3), span(1, 5)])));
}

#[test]
fn region_has_the_color_of_the_innermost_group_around_it() {
    let groups = vec![
        span(0, 12),
        span(1, 11),
        None,
        span(2, 5),
        span(3, 4),
        span(5, 9),
        None,
        span(9, 9),
        span(11, 12),
    ];
    let captures = list(groups.clone());
    assert!(is_well_nested(&captures));
    for r in highlight(&captures) {
        if r.start == r.end {
            continue;
        }
        let mut innermost = 0;
        let mut present = 0;
        let mut rank = 0;
        for group in groups.iter() {
            if let Some(s) = group {
                let inside = s.start <= r.start && r.end <= s.end;
                let outside = r.end <= s.start || s.end <= r.start;
                assert!(inside || outside);
                if inside {
                    innermost = present;
                }
                present += 1;
            }
            rank += 1;
        }
        assert!(rank == groups.len());
        assert_eq!(r.color, color_at(innermost));
    }
}

#[test]
fn regions_cut_the_match_exactly_where_the_spans_nest() {
    let spans = [None, span(0, 0), span(0, 1), span(0, 2), span(1, 1), span(1, 2), span(2, 2)];
    for first in spans.iter() {
        for second in spans.iter() {
            let captures = list(vec![span(0, 2), *first, *second]);
            let regions = highlight(&captures);
            let cut = regions[0].start == 0
                && regions[regions.len() - 1].end == 2
                && regions.windows(2).all(|pair| pair[0].end == pair[1].start)
                && regions.iter().all(|r| r.start <= r.end);
            assert_eq!(cut, is_well_nested(&captures));
        }
    }
}
