use aho_corasick::AhoCorasick;
use aho_pattern::error::Error;
use aho_pattern::pattern::PatternBytes;
use aho_pattern::search::{resolve_hits, AhoPattern, AnchorRecord};

const HAYSTACK: [u8; 6] = [0x10, 0x48, 0x2E, 0x99, 0x48, 0x2E];

fn search(haystack: &[u8], texts: &[&str]) -> Vec<Option<usize>> {
    let patterns = PatternBytes::patterns_from_strs(texts).unwrap();
    AhoCorasick::find_patterns(haystack, patterns).unwrap()
}

fn naive_first(haystack: &[u8], needle: &[u8]) -> Option<usize> {
    if needle.len() > haystack.len() {
        return None;
    }
    (0..=haystack.len() - needle.len()).find(|&k| &haystack[k..k + needle.len()] == needle)
}

#[test]
fn batch_of_two_literal_patterns() {
    assert_eq!(search(&HAYSTACK, &["48 2E", "99"]), vec![Some(1), Some(3)]);
}

#[test]
fn wildcard_in_the_middle() {
    // `48 ?? 2E` needs 0x2E two bytes after 0x48; the haystack never has it.
    assert_eq!(search(&HAYSTACK, &["48 ?? 2E"]), vec![None]);
    assert_eq!(search(&HAYSTACK, &["48 2E ?? 48"]), vec![Some(1)]);
    assert_eq!(search(&HAYSTACK, &["99 ?? 2E"]), vec![Some(3)]);
}

#[test]
fn both_occurrences_in_one_batch() {
    assert_eq!(search(&HAYSTACK, &["10 48 2E", "99 48 2E"]), vec![Some(0), Some(3)]);
    assert_eq!(search(&HAYSTACK, &["10 ?? 2E", "99 ?? 2E"]), vec![Some(0), Some(3)]);
}

#[test]
fn overlapping_anchor_hits_are_not_reported() {
    // The scan reports non-overlapping anchor hits: `2E 99` overlaps `48 2E`.
    let hay = [0x48, 0x2E, 0x99];
    assert_eq!(search(&hay, &["48 2E", "2E 99"]), vec![Some(0), None]);
    assert_eq!(search(&hay, &["2E 99"]), vec![Some(1)]);
}

#[test]
fn leading_wildcards_are_counted() {
    assert_eq!(search(&HAYSTACK, &["?? 48 2E"]), vec![Some(0)]);
    assert_eq!(search(&HAYSTACK, &["?? ?? 99"]), vec![Some(1)]);
}

#[test]
fn start_before_haystack_is_skipped() {
    // At 1 the pattern would start at -1; the next hit, at 4, fits.
    assert_eq!(search(&HAYSTACK, &["?? ?? 48 2E"]), vec![Some(2)]);
}

#[test]
fn window_past_the_end_is_skipped() {
    let mut hay = vec![0u8; 12];
    hay[10] = 0xAA;
    hay[11] = 0xBB;
    assert_eq!(search(&hay, &["AA BB ?? ?? ?? ?? ?? ?? ?? ??"]), vec![None]);
    assert_eq!(search(&hay, &["?? ?? ?? ?? ?? ?? ?? ?? AA BB"]), vec![Some(2)]);
}

#[test]
fn all_wildcard_patterns_are_never_found() {
    assert_eq!(search(&HAYSTACK, &["?? ??", "", "?"]), vec![None, None, None]);
}

#[test]
fn all_wildcard_pattern_does_not_hide_others() {
    assert_eq!(search(&HAYSTACK, &["??", "99", "?? ??", "48 2E"]), vec![None, Some(3), None, Some(1)]);
}

#[test]
fn empty_haystack_and_empty_batch() {
    assert_eq!(search(&[], &["48", "?? 2E"]), vec![None, None]);
    assert_eq!(search(&HAYSTACK, &[]), Vec::<Option<usize>>::new());
}

#[test]
fn first_match_wins() {
    let hay = [0x48, 0x2E, 0x00, 0x48, 0x2E];
    assert_eq!(search(&hay, &["48 2E"]), vec![Some(0)]);
}

#[test]
fn known_byte_patterns_agree_with_substring_search() {
    let hay: Vec<u8> = vec![3, 1, 4, 1, 5, 9, 2, 6, 5, 3, 5, 8, 9, 7, 9, 3, 2, 3, 8, 4, 6, 2, 6, 4];
    let needles: Vec<Vec<u8>> = vec![
        vec![1, 5],
        vec![5],
        vec![9, 3, 2],
        vec![2, 6, 4],
        vec![7, 7],
        vec![4, 6, 2, 6, 4, 0],
    ];
    for needle in &needles {
        let patterns = PatternBytes::patterns_from_bytes(std::slice::from_ref(needle));
        let found = AhoCorasick::find_patterns(&hay, patterns).unwrap();
        assert_eq!(found, vec![naive_first(&hay, needle)]);
    }
}

#[test]
fn repeated_search_gives_same_result() {
    let texts = ["48 ?? 99", "2E", "?? 48", "10 48 2E 99 48 2E"];
    let first = search(&HAYSTACK, &texts);
    let second = search(&HAYSTACK, &texts);
    assert_eq!(first, second);
}

#[test]
fn anchor_ties_go_to_the_leftmost_run() {
    let p = PatternBytes(vec![Some(0x11), Some(0x22), Some(0x33), None, Some(0x44), Some(0x55), Some(0x66)]);
    assert_eq!(p.select_anchor(), (0, 3));
    assert_eq!(p.select_anchor(), (0, 3));
    let q = PatternBytes(vec![Some(1), None, Some(2), Some(3), None, Some(4), Some(5)]);
    assert_eq!(q.select_anchor(), (2, 2));
    let r = PatternBytes(vec![Some(1), None, Some(2), Some(3), Some(4)]);
    assert_eq!(r.select_anchor(), (2, 3));
    assert_eq!(PatternBytes(vec![None, None]).select_anchor(), (0, 0));
    assert_eq!(PatternBytes(vec![]).select_anchor(), (0, 0));
}

#[test]
fn tie_break_in_a_search() {
    // Two known runs of three; the anchor is the first.
    let hay = [0xAA, 0x01, 0x02, 0x03, 0x77, 0x04, 0x05, 0x06, 0xBB];
    assert_eq!(search(&hay, &["01 02 03 ?? 04 05 06"]), vec![Some(1)]);
    assert_eq!(search(&hay, &["01 02 03 ?? 04 05 07"]), vec![None]);
}

#[test]
fn strip_leading_wildcards_keeps_the_rest() {
    let p = PatternBytes(vec![None, None, Some(7), None, Some(8), None]);
    let (rest, count) = p.strip_leading_wildcards();
    assert_eq!(count, 2);
    assert_eq!(rest.0, vec![Some(7), None, Some(8), None]);
    let (rest, count) = PatternBytes(vec![None]).strip_leading_wildcards();
    assert_eq!(count, 1);
    assert!(rest.0.is_empty());
}

#[test]
fn template_and_mask() {
    let p = PatternBytes(vec![Some(0x48), None, Some(0x2E)]);
    assert_eq!(p.parse_pattern(), (vec![0x48, 0, 0x2E], vec![false, true, false]));
}

#[test]
fn masked_comparison() {
    assert!(PatternBytes::matches_pattern(&[1, 9, 3], &[1, 0, 3], &[false, true, false]));
    assert!(!PatternBytes::matches_pattern(&[1, 9, 4], &[1, 0, 3], &[false, true, false]));
    assert!(PatternBytes::matches_pattern(&[1, 2], &[1, 2, 3], &[false, false, false]));
}

#[test]
fn anchor_record_of_a_pattern() {
    let p = PatternBytes(vec![None, Some(1), None, Some(2), Some(3)]);
    let r = AnchorRecord::new(&p);
    assert_eq!(r.strip, 1);
    assert_eq!(r.offset, 2);
    assert_eq!(r.anchor, vec![2, 3]);
    assert_eq!(r.template, vec![1, 0, 2, 3]);
    assert_eq!(r.mask, vec![false, true, false, false]);
}

#[test]
fn resolving_hits() {
    let patterns = vec![
        PatternBytes(vec![None, Some(0x48), Some(0x2E)]),
        PatternBytes(vec![Some(0x99)]),
    ];
    let records: Vec<AnchorRecord> = patterns.iter().map(AnchorRecord::new).collect();
    // A hit past the last pattern, a wrong hit, then two good ones for pattern 0.
    let hits = vec![(5, 0), (1, 0), (0, 4), (0, 1), (1, 3)];
    assert_eq!(resolve_hits(&HAYSTACK, &patterns, &records, &hits), vec![Some(3), Some(3)]);
    let hits = vec![(0, 1), (0, 4)];
    assert_eq!(resolve_hits(&HAYSTACK, &patterns, &records, &hits), vec![Some(0), None]);
    let hits = vec![(0, 100), (1, 100)];
    assert_eq!(resolve_hits(&HAYSTACK, &patterns, &records, &hits), vec![None, None]);
}

#[test]
fn parse_text_patterns() {
    let p = PatternBytes::parse_str("48 ? 2E").unwrap();
    assert_eq!(p.0, vec![Some(0x48), None, Some(0x2E)]);
    let p = PatternBytes::parse_str("  ab\t??\nFf ").unwrap();
    assert_eq!(p.0, vec![Some(0xAB), None, Some(0xFF)]);
    assert!(PatternBytes::parse_str("").unwrap().0.is_empty());
    let p: PatternBytes = "00 ?".parse().unwrap();
    assert_eq!(p.0, vec![Some(0), None]);
}

#[test]
fn parse_errors() {
    assert!(matches!(PatternBytes::parse_str("48 ZZ"), Err(Error::Parsing)));
    assert!(matches!(PatternBytes::parse_str("4"), Err(Error::Parsing)));
    assert!(matches!(PatternBytes::parse_str("???"), Err(Error::Parsing)));
    assert!(matches!(PatternBytes::parse_str("123"), Err(Error::Parsing)));
    assert!(matches!(PatternBytes::patterns_from_strs(&["48", "x"]), Err(Error::Parsing)));
    assert_eq!(PatternBytes::patterns_from_strs(&["48", "?"]).unwrap().len(), 2);
}

#[test]
fn patterns_from_byte_sequences() {
    let ps = PatternBytes::patterns_from_bytes(&[vec![1, 2], vec![]]);
    assert_eq!(ps[0].0, vec![Some(1), Some(2)]);
    assert!(ps[1].0.is_empty());
    let p = PatternBytes::from(vec![0xFF]);
    assert_eq!(p.0, vec![Some(0xFF)]);
}

#[test]
fn pattern_text() {
    assert_eq!(PatternBytes(vec![Some(0x48), None, Some(0x2E)]).to_text(), "48 ? 2E");
    assert_eq!(PatternBytes::parse_str("?? ab 0").map(|p| p.to_text()).ok(), None);
    assert_eq!(PatternBytes::parse_str("?? ab 0f").unwrap().to_text(), "? AB 0F");
    assert_eq!(PatternBytes(vec![]).to_text(), "");
}

#[test]
fn errors_are_cloneable() {
    let e = Error::Parsing;
    assert!(matches!(e.clone(), Error::Parsing));
}

#[test]
fn text_round_trip() {
    let p = PatternBytes(vec![Some(0x00), None, Some(0xAB), Some(0x7F), None]);
    let back = PatternBytes::parse_str(&p.to_text()).unwrap();
    assert_eq!(back.0, p.0);
    let q: PatternBytes = "  2e ?? 2E ".parse().unwrap();
    assert_eq!(q.0, vec![Some(0x2E), None, Some(0x2E)]);
    assert!(matches!("48 ZZ 2E".parse::<PatternBytes>(), Err(Error::Parsing)));
}

#[test]
fn leading_wildcards_shift_the_start() {
    let hay = [0x01, 0x02, 0x03, 0x48, 0x2E, 0x99];
    assert_eq!(search(&hay, &["48 2E"]), vec![Some(3)]);
    assert_eq!(search(&hay, &["?? ?? 48 2E"]), vec![Some(1)]);
    assert_eq!(search(&hay, &["?? ?? ?? 48 2E"]), vec![Some(0)]);
    assert_eq!(search(&hay, &["?? ?? ?? ?? 48 2E"]), vec![None]);
}
