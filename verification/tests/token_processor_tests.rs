use vtext::token_processor::{StopWordFilterParams, TokenProcessor};

fn strings(words: &[&str]) -> Vec<String> {
    words.iter().map(|w| w.to_string()).collect()
}

#[test]
fn stop_word_filter_drops_listed_words() {
    let tokens = strings(&["this", "is", "a", "long", "sentence"]);
    let stop_words = vec!["a", "this"];

    let filter = StopWordFilterParams::default()
        .stop_words(stop_words)
        .build()
        .unwrap();

    let tokens_out = filter.transform(tokens);
    assert_eq!(tokens_out, strings(&["is", "long", "sentence"]));
}

#[test]
fn stop_word_filter_default_list() {
    let filter = StopWordFilterParams::default().build().unwrap();
    let tokens = strings(&["bread", "and", "butter", "or", "jam", "this", "morning"]);
    let tokens_out = filter.transform(tokens);
    assert_eq!(tokens_out, strings(&["bread", "butter", "jam", "morning"]));
}
