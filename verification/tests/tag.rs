use basemod_extract::{decode_tag, DecodeFault, TagGroup};
use regex::Regex;

fn plain(groups: Vec<TagGroup>) -> Vec<(u8, char, char, Vec<i64>)> {
    groups
        .into_iter()
        .map(|g| (g.modified_base, g.strand, g.modification_type, g.distances))
        .collect()
}

fn decoded(text: &[u8]) -> Vec<(u8, char, char, Vec<i64>)> {
    plain(decode_tag(text).unwrap())
}

#[test]
fn two_groups_with_distances() {
    assert_eq!(
        decoded(b"C+m,5,12,0;A+a,3;"),
        vec![(b'C', '+', 'm', vec![5, 12, 0]), (b'A', '+', 'a', vec![3])]
    );
    assert_eq!(
        decoded(b"C+h,0;C+m,10,0,3;"),
        vec![(b'C', '+', 'h', vec![0]), (b'C', '+', 'm', vec![10, 0, 3])]
    );
}

#[test]
fn empty_text_has_no_group() {
    assert_eq!(decoded(b""), vec![]);
}

#[test]
fn marker_behind_the_code_is_passed_over() {
    assert_eq!(decoded(b"C+m?,1;"), vec![(b'C', '+', 'm', vec![1])]);
    assert_eq!(decoded(b"C+m.,1;"), vec![(b'C', '+', 'm', vec![1])]);
    assert_eq!(decoded(b"C+m?.,1;"), vec![(b'C', '+', 'm', vec![])]);
}

#[test]
fn every_base_and_both_strands() {
    assert_eq!(
        decoded(b"N+n,1;T-t,2;U+u;G+g,7;"),
        vec![
            (b'N', '+', 'n', vec![1]),
            (b'T', '-', 't', vec![2]),
            (b'U', '+', 'u', vec![]),
            (b'G', '+', 'g', vec![7]),
        ]
    );
    assert_eq!(decoded(b"A-a,0;"), vec![(b'A', '-', 'a', vec![0])]);
}

#[test]
fn text_that_starts_no_group_is_passed_over() {
    assert_eq!(decoded(b"xxC-h;yy"), vec![(b'C', '-', 'h', vec![])]);
    assert_eq!(decoded(b"AC+m,1;"), vec![(b'C', '+', 'm', vec![1])]);
    assert_eq!(decoded(b"CC+m,3;"), vec![(b'C', '+', 'm', vec![3])]);
    assert_eq!(decoded(b"C+M,1;"), vec![]);
    assert_eq!(decoded(b"c+m,1;"), vec![]);
    assert_eq!(decoded(b"C*m,1;"), vec![]);
    assert_eq!(decoded(b"C+"), vec![]);
    assert_eq!(decoded(b",1,2;"), vec![]);
}

#[test]
fn list_without_its_end_gives_no_distance() {
    assert_eq!(decoded(b"C+m,5,2"), vec![(b'C', '+', 'm', vec![])]);
    assert_eq!(decoded(b"C+m,1,;"), vec![(b'C', '+', 'm', vec![])]);
    assert_eq!(decoded(b"A+a,,1;"), vec![(b'A', '+', 'a', vec![])]);
    assert_eq!(decoded(b"C+m ,1;"), vec![(b'C', '+', 'm', vec![])]);
}

#[test]
fn last_list_carries_the_distances() {
    assert_eq!(decoded(b"C+m,1;,2,3;"), vec![(b'C', '+', 'm', vec![2, 3])]);
    assert_eq!(decoded(b"C+m,1;;"), vec![(b'C', '+', 'm', vec![])]);
    assert_eq!(decoded(b"C+m,1;,;"), vec![(b'C', '+', 'm', vec![1])]);
    assert_eq!(decoded(b"C+m;,1"), vec![(b'C', '+', 'm', vec![])]);
}

#[test]
fn code_is_letters_or_digits() {
    assert_eq!(decoded(b"C+76792,4;"), vec![(b'C', '+', '7', vec![4])]);
    assert_eq!(decoded(b"C+mh,1;"), vec![(b'C', '+', 'm', vec![1])]);
    assert_eq!(decoded(b"C+m9,1;"), vec![(b'C', '+', 'm', vec![])]);
    assert_eq!(decoded(b"C+9m,1;"), vec![(b'C', '+', '9', vec![])]);
}

#[test]
fn distance_at_the_end_of_the_range() {
    assert_eq!(
        decoded(b"C+m,9223372036854775807;"),
        vec![(b'C', '+', 'm', vec![i64::MAX])]
    );
    assert_eq!(
        decoded(b"C+m,0000000000000000000000000000005,007;"),
        vec![(b'C', '+', 'm', vec![5, 7])]
    );
}

#[test]
fn distance_beyond_the_range_is_malformed() {
    assert_eq!(decode_tag(b"C+m,9223372036854775808;").err(), Some(DecodeFault::Malformed));
    assert_eq!(decode_tag(b"C+m,99999999999999999999;").err(), Some(DecodeFault::Malformed));
    assert_eq!(
        decode_tag(b"C+m,1;A+a,3,18446744073709551616,4;").err(),
        Some(DecodeFault::Malformed)
    );
}

#[test]
fn distance_beyond_the_range_outside_the_last_list_is_not_read() {
    assert_eq!(
        decoded(b"C+m,99999999999999999999;,1;"),
        vec![(b'C', '+', 'm', vec![1])]
    );
    assert_eq!(
        decoded(b"C+m,99999999999999999999"),
        vec![(b'C', '+', 'm', vec![])]
    );
}

/// The groups of `text` as the regular expression of the tag finds them.
fn by_pattern(pattern: &Regex, text: &str) -> Option<Vec<(u8, char, char, Vec<i64>)>> {
    let mut groups = vec![];
    for cap in pattern.captures_iter(text) {
        let base = cap.get(3).unwrap().as_str().as_bytes()[0];
        let strand = cap.get(4).unwrap().as_str().chars().next().unwrap();
        let code = cap.get(5).unwrap().as_str().chars().next().unwrap();
        let list = cap.get(6).map_or("", |m| m.as_str());
        let mut distances = vec![];
        for token in list.trim_end_matches(';').split(',') {
            if token.trim().is_empty() {
                continue;
            }
            match token.trim().parse::<i64>() {
                Ok(d) => distances.push(d),
                Err(_) => return None,
            }
        }
        groups.push((base, strand, code, distances));
    }
    Some(groups)
}

fn tag_pattern() -> Regex {
    Regex::new(r"((([ACGTUN])([-+])([a-z]+|[0-9]+))[.?]?((,[0-9]+)*;)*)").unwrap()
}

fn agrees_with_pattern(pattern: &Regex, text: &str) {
    let got = decode_tag(text.as_bytes());
    match by_pattern(pattern, text) {
        Some(groups) => assert_eq!(got.map(plain), Ok(groups), "on {:?}", text),
        None => assert_eq!(got.err(), Some(DecodeFault::Malformed), "on {:?}", text),
    }
}

#[test]
fn agrees_with_the_pattern_on_chosen_texts() {
    let pattern = tag_pattern();
    for text in [
        "C+m,5,12,0;A+a,3;",
        "C+m?,1;C-h.,2,3;;,4;",
        "C+m,1;,2,3;",
        "N+76792?,0,0,0;",
        "C+m,9223372036854775808;",
        "C+m,99999999999999999999;,1;",
        "A+a;C+m,,;T-t,1,;G+g,1;x",
        "C+mC+m,1;",
        "C+m,1;C+",
        "ACGTUN+-+-",
        "C+\u{e9}m,1;",
        "\u{3b1}C+m,1;\u{3b2}",
    ] {
        agrees_with_pattern(&pattern, text);
    }
}

#[test]
fn agrees_with_the_pattern_on_generated_texts() {
    let pattern = tag_pattern();
    let alphabet: Vec<char> = "ACGTUN+-mh09,;.?aZ x,;,;++CC".chars().collect();
    let mut state: u64 = 0x2545F4914F6CDD1D;
    for round in 0..20000 {
        let mut text = String::new();
        let len = round % 24;
        for _ in 0..len {
            state ^= state << 13;
            state ^= state >> 7;
            state ^= state << 17;
            text.push(alphabet[(state % alphabet.len() as u64) as usize]);
        }
        agrees_with_pattern(&pattern, &text);
    }
}

#[test]
fn agrees_with_the_pattern_on_generated_tags() {
    let pattern = tag_pattern();
    let pieces = [
        "C+m", "A+a", "T-t", "G-76792", "N+n", "U+hm", ",0", ",1", ",12", ",345", ";", ";", ".",
        "?", ",", "x", "+", "C", ",99999999999999999999", ",9223372036854775807",
    ];
    let mut state: u64 = 0x9E3779B97F4A7C15;
    for round in 0..20000 {
        let mut text = String::new();
        let len = round % 12;
        for _ in 0..len {
            state ^= state << 13;
            state ^= state >> 7;
            state ^= state << 17;
            text.push_str(pieces[(state % pieces.len() as u64) as usize]);
        }
        agrees_with_pattern(&pattern, &text);
    }
}
