use retest::collect::{collect_records, find_matches, MatchError};
use retest::nesting::is_well_nested;
use retest::pattern::with_flags;
use retest::region::{highlight, Region};
use retest::span::{CaptureList, Span};

fn span(start: usize, end: usize) -> Option<Span> {
    Some(Span { start, end })
}

fn groups_of(records: &[CaptureList]) -> Vec<Vec<Option<Span>>> {
    records.iter().map(|r| r.groups().clone()).collect()
}

fn visible(regions: &[Region]) -> Vec<(usize, usize)> {
    regions.iter().filter(|r| r.start < r.end).map(|r| (r.start, r.end)).collect()
}

#[test]
fn inner_group_scenario() {
    let records = find_matches("a(b)c", "xabcy").unwrap();
    assert_eq!(groups_of(&records), vec![vec![span(1, 4), span(2, 3)]]);
    let regions = highlight(&records[0]);
    assert_eq!(visible(&regions), vec![(1, 2), (2, 3), (3, 4)]);
    assert_eq!(regions.len(), 3);
}

#[test]
fn nested_groups_scenario() {
    let records = find_matches("(a(b)c)", "abc").unwrap();
    assert_eq!(groups_of(&records), vec![vec![span(0, 3), span(0, 3), span(1, 2)]]);
    let regions = highlight(&records[0]);
    assert_eq!(visible(&regions), vec![(0, 1), (1, 2), (2, 3)]);
}

#[test]
fn untaken_branch_scenario() {
    let records = find_matches("(a)|(b)", "b").unwrap();
    assert_eq!(groups_of(&records), vec![vec![span(0, 1), None, span(0, 1)]]);
    let regions = highlight(&records[0]);
    assert_eq!(visible(&regions), vec![(0, 1)]);
}

#[test]
fn sibling_groups_scenario() {
    let records = find_matches("(a)(b)", "xaby").unwrap();
    assert_eq!(groups_of(&records), vec![vec![span(1, 3), span(1, 2), span(2, 3)]]);
    let regions = highlight(&records[0]);
    assert_eq!(visible(&regions), vec![(1, 2), (2, 3)]);
}

#[test]
fn invalid_pattern_scenario() {
    let result = find_matches("(", "anything");
    assert!(matches!(result, Err(MatchError::InvalidPattern(_))));
}

#[test]
fn invalid_pattern_carries_the_diagnostic() {
    let expected = regex::Regex::new("a{2,1}").unwrap_err().to_string();
    assert!(!expected.is_empty());
    match find_matches("a{2,1}", "aa") {
        Err(MatchError::InvalidPattern(text)) => assert_eq!(text, expected),
        Ok(_) => panic!("the pattern compiled"),
    }
}

#[test]
fn error_message_names_the_kind_of_error() {
    let error = MatchError::InvalidPattern(String::from("missing )"));
    assert_eq!(error.message(), "Regex error: missing )");
    let error = find_matches("(", "").unwrap_err();
    let MatchError::InvalidPattern(text) = &error;
    assert_eq!(error.message(), format!("Regex error: {}", text));
}

#[test]
fn too_big_pattern_is_invalid() {
    let result = find_matches("\\w{1000}{1000}", "a");
    assert!(matches!(result, Err(MatchError::InvalidPattern(_))));
}

#[test]
fn no_match_gives_no_record() {
    let records = find_matches("z+", "xabcy").unwrap();
    assert!(records.is_empty());
}

#[test]
fn every_match_is_found_in_order() {
    let records = find_matches("[0-9]+", "a12b345c6").unwrap();
    assert_eq!(
        groups_of(&records),
        vec![vec![span(1, 3)], vec![span(4, 7)], vec![span(8, 9)]]
    );
}

#[test]
fn offsets_count_bytes() {
    let records = find_matches("(β)(γ)", "αβγδ").unwrap();
    assert_eq!(groups_of(&records), vec![vec![span(2, 6), span(2, 4), span(4, 6)]]);
}

#[test]
fn empty_matches_are_found() {
    let records = find_matches("a*", "baab").unwrap();
    assert_eq!(
        groups_of(&records),
        vec![vec![span(0, 0)], vec![span(1, 3)], vec![span(4, 4)]]
    );
    for pair in records.windows(2) {
        assert!(pair[0].whole().end <= pair[1].whole().start);
    }
}

#[test]
fn matches_of_nested_groups_nest() {
    let records = find_matches("((a)(b(c)))(d)?", "abc abcd").unwrap();
    assert_eq!(records.len(), 2);
    for record in records.iter() {
        assert!(is_well_nested(record));
    }
    assert_eq!(
        records[1].groups(),
        &vec![span(4, 8), span(4, 7), span(4, 5), span(5, 7), span(6, 7), span(7, 8)]
    );
    assert_eq!(records[0].get(5), None);
}

#[test]
fn repeated_alternation_can_leave_spans_out_of_order() {
    let records = find_matches("(?:(a)|(b))*", "ba").unwrap();
    assert_eq!(records[0].groups(), &vec![span(0, 2), span(1, 2), span(0, 1)]);
    assert!(!is_well_nested(&records[0]));
}

#[test]
fn records_are_made_of_valid_lists_only() {
    let found = vec![vec![span(0, 2), None], vec![span(3, 4), span(3, 3)]];
    let records = collect_records(&found).unwrap();
    assert_eq!(groups_of(&records), found);
    assert!(collect_records(&vec![]).unwrap().is_empty());
    assert!(collect_records(&vec![vec![span(0, 2)], vec![]]).is_none());
    assert!(collect_records(&vec![vec![None, span(0, 2)]]).is_none());
    assert!(collect_records(&vec![vec![span(0, 2), span(2, 1)]]).is_none());
}

#[test]
fn flags_stand_before_the_pattern() {
    assert_eq!(with_flags("a.c", false, false), "a.c");
    assert_eq!(with_flags("a.c", true, false), "(?i)a.c");
    assert_eq!(with_flags("a.c", false, true), "(?m)a.c");
    assert_eq!(with_flags("a.c", true, true), "(?m)(?i)a.c");
    assert_eq!(with_flags("", true, true), "(?m)(?i)");
}

#[test]
fn flags_change_how_the_pattern_matches() {
    assert!(find_matches("abc", "xABCy").unwrap().is_empty());
    let records = find_matches(&with_flags("abc", true, false), "xABCy").unwrap();
    assert_eq!(groups_of(&records), vec![vec![span(1, 4)]]);
    assert_eq!(find_matches("^b", "a\nb").unwrap().len(), 0);
    let records = find_matches(&with_flags("^b", false, true), "a\nb").unwrap();
    assert_eq!(groups_of(&records), vec![vec![span(2, 3)]]);
}
