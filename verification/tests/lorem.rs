use loremipsum::read_lorem;
use loremipsum::run;
use loremipsum::Lorem;
use loremipsum::LoremError;

#[test]
fn it_lorem_words() {
    let len: usize = Lorem::count_words() * 2usize;
    (1..=len).for_each(|i: usize| {
        let words_count: usize = Lorem::words(i).split_whitespace().count();
        assert_eq!(words_count, i);
        let len_words_rest: usize = Lorem::words(len - i).split_whitespace().count();
        assert_eq!(words_count, len - len_words_rest);
    });
}

#[test]
fn it_lorem_paragraphs() {
    let len: usize = Lorem::count_paras();
    (1..=len).for_each(|i: usize| {
        let paras: String = Lorem::paragraphs(i);
        assert_eq!(paras.split_terminator('.').count(), len * i);
    });
}

#[test]
fn it_new_lorem() {
    let para: String = Lorem::new().paragraph;
    let words = para.split_whitespace();
    assert_eq!(
        "laborum.",
        words
            .clone()
            .last()
            .expect("Failed to get last word from lorem ipsum paragraph"),
    );
    assert_eq!(
        "Lorem",
        *words
            .collect::<Vec<&str>>()
            .first()
            .expect("Failed to get first word from lorem ipsum paragraph")
    );
}

#[test]
fn it_read_lorem() {
    let string: String = read_lorem().expect("Failed to read lorem ipsum from file");
    assert_eq!(string.len(), 440usize);
    let words = string.split_ascii_whitespace();
    assert_eq!(words.count(), 64usize);
}

#[test]
fn it_gets_array_words() {
    let got: Result<Vec<String>, LoremError> = run();
    assert!(got.is_ok(), "Failed to get array of words from lorem ipsum");

    let len: usize = got.unwrap().len();
    assert_eq!(len, 64usize);
}

#[test]
fn it_matches_run_array_first_last_word() {
    let got: Vec<String> = run().unwrap();

    let got_first: &String = &got[0];
    let expect_first = "Lorem";
    assert_eq!(got_first, expect_first);

    let last: &String = &got[got.len() - 1usize];
    let expect_last = "laborum.";
    assert_eq!(last, expect_last);
}

#[test]
fn it_matches_run_array_all_words() {
    let binding: String = read_lorem().expect("Failed to read lorem ipsum from file");
    let source: Vec<&str> = binding.split::<char>(' ').collect();

    let derive: Vec<String> = run().expect("Failed to get array of words from run_array");
    assert_eq!(source.len(), derive.len());

    (1..derive.len()).for_each(|i: usize| {
        let x: &str = source[i];
        let y: &String = &derive[i];
        assert_eq!(x, *y);
        assert_eq!(x.len(), y.len());
    });
}

#[test]
fn it_wraps_words() {
    let count_words: usize = Lorem::count_words();
    (0..count_words * 4usize).for_each(|i: usize| {
        let words = Lorem::words(count_words * i);
        assert_eq!(words.split_whitespace().count(), count_words * i);
    });
}
