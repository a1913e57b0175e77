use loremipsum::read_lorem;
use loremipsum::run;
use loremipsum::Lorem;

#[test]
fn canonical_counts() {
    assert_eq!(Lorem::count_chars(), 440usize);
    assert_eq!(Lorem::count_words(), 64usize);
    assert_eq!(Lorem::count_paras(), 4usize);
}

#[test]
fn load_is_idempotent() {
    let first: String = read_lorem().unwrap();
    let second: String = read_lorem().unwrap();
    assert_eq!(first, second);
}

#[test]
fn load_collapses_line_breaks() {
    let text: String = read_lorem().unwrap();
    assert!(!text.contains('\n'));
    let words: Vec<String> = run().unwrap();
    assert_eq!(words[11], "temporincididunt");
}

#[test]
fn chars_returns_exact_prefix() {
    assert_eq!(Lorem::chars(0), "");
    assert_eq!(Lorem::chars(5), "Lorem");
    assert_eq!(Lorem::chars(12), "Lorem ipsum ");
    let text: String = read_lorem().unwrap();
    assert_eq!(Lorem::chars(440), text);
    for k in [1usize, 17, 439, 440] {
        let prefix: String = text.chars().take(k).collect();
        assert_eq!(Lorem::chars(k), prefix);
    }
}

#[test]
fn chars_wrap_policy_repeats_whole_passes() {
    // Wrapping requests append one full pass per unit of the remainder, so
    // the result is longer than the request: 886 % 440 == 6 extra passes.
    let wrapped: String = Lorem::chars(886);
    assert_eq!(wrapped.chars().count(), 440 * 7);
    let base: String = Lorem::new().paragraph;
    let mut expected: String = String::new();
    for _ in 0..7 {
        expected.push_str(&base);
    }
    assert_eq!(wrapped, expected);
}

#[test]
fn words_zero_is_empty() {
    assert_eq!(Lorem::words(0), "");
}

#[test]
fn words_wrap_around_to_start() {
    let words: String = Lorem::words(70);
    let tokens: Vec<&str> = words.split_whitespace().collect();
    assert_eq!(tokens.len(), 70);
    assert_eq!(tokens[0], "Lorem");
    assert_eq!(tokens[64], "Lorem");
    assert_eq!(tokens[65], "ipsum");
    assert_eq!(tokens[69], tokens[5]);
}

#[test]
fn words_within_source_match_run() {
    let all: Vec<String> = run().unwrap();
    let words: String = Lorem::words(3);
    assert_eq!(words, format!("{} {} {}", all[0], all[1], all[2]));
}

#[test]
fn paragraphs_concatenates_copies() {
    assert_eq!(Lorem::paragraphs(0), "");
    let base: String = Lorem::new().paragraph;
    assert_eq!(Lorem::paragraphs(1), base);
    assert_eq!(Lorem::paragraphs(2), format!("{}{}", base, base));
    assert_eq!(Lorem::paragraphs(3).split_terminator('.').count(), 12);
}

#[test]
fn new_instance_is_not_empty() {
    let lorem = Lorem::new();
    assert!(!lorem.is_empty());
}

#[test]
fn default_matches_new() {
    assert_eq!(Lorem::default().paragraph, Lorem::new().paragraph);
}
