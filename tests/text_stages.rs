use bart_openai::chunks::split_text_into_chunks;
use bart_openai::error::PipelineError;
use bart_openai::sentences::filter_sentences;
use bart_openai::summary::{combine_summaries, strip_boilerplate};

fn words_of(n: usize) -> String {
    let mut parts: Vec<String> = Vec::new();
    for i in 0..n {
        parts.push(format!("w{}", i));
    }
    parts.join(" ")
}

#[test]
fn filter_drops_fourth_of_five() {
    assert_eq!(filter_sentences("A. B. C. D. E."), "A. B. C. E.");
}

#[test]
fn filter_empty_input() {
    assert_eq!(filter_sentences(""), "");
    assert_eq!(filter_sentences("   \n\t "), "");
}

#[test]
fn filter_without_terminator_keeps_trimmed_text() {
    assert_eq!(filter_sentences("  hello there world \n"), "hello there world");
}

#[test]
fn filter_mixed_terminators_and_tail() {
    assert_eq!(
        filter_sentences("One! Two?  Three.\nFour. Five"),
        "One! Two? Three. Five"
    );
}

#[test]
fn filter_eight_sentences_keeps_six() {
    let out = filter_sentences("s1. s2. s3. s4. s5. s6. s7. s8.");
    assert_eq!(out, "s1. s2. s3. s5. s6. s7.");
    assert_eq!(out.split(' ').count(), 8 - 8 / 4);
}

#[test]
fn filter_trims_each_sentence() {
    assert_eq!(filter_sentences("  a .   b!c?"), "a . b! c?");
}

#[test]
fn chunks_of_4001_words() {
    let text = words_of(4001);
    let chunks = split_text_into_chunks(&text, 2000).unwrap();
    assert_eq!(chunks.len(), 3);
    assert_eq!(chunks[0].split_whitespace().count(), 2000);
    assert_eq!(chunks[1].split_whitespace().count(), 2000);
    assert_eq!(chunks[2].split_whitespace().count(), 1);
    assert_eq!(chunks[2], "w4000");
}

#[test]
fn chunks_exact_multiple() {
    let text = words_of(4000);
    let chunks = split_text_into_chunks(&text, 2000).unwrap();
    assert_eq!(chunks.len(), 2);
}

#[test]
fn chunks_of_empty_text() {
    assert_eq!(split_text_into_chunks("", 5).unwrap(), Vec::<String>::new());
    assert_eq!(split_text_into_chunks(" \n ", 5).unwrap(), Vec::<String>::new());
}

#[test]
fn chunks_reject_zero_size() {
    assert_eq!(
        split_text_into_chunks("a b", 0),
        Err(PipelineError::InvalidArgument)
    );
}

#[test]
fn chunks_normalize_whitespace() {
    let chunks = split_text_into_chunks("  a\t b\n\nc  d e ", 2).unwrap();
    assert_eq!(chunks, vec!["a b".to_string(), "c d".to_string(), "e".to_string()]);
}

#[test]
fn chunks_rejoined_give_the_words_back() {
    let text = "the  quick\tbrown fox\n jumps over the lazy dog ";
    let chunks = split_text_into_chunks(text, 3).unwrap();
    let rejoined = chunks.join(" ");
    let a: Vec<&str> = rejoined.split_whitespace().collect();
    let b: Vec<&str> = text.split_whitespace().collect();
    assert_eq!(a, b);
    for c in &chunks {
        assert!(c.split_whitespace().count() <= 3);
    }
    assert_eq!(chunks.len(), (9 + 3 - 1) / 3);
}

#[test]
fn strip_removes_preamble_and_trims() {
    assert_eq!(
        strip_boilerplate("Here are the key events summarized:\n\n The hero wins. "),
        "The hero wins."
    );
}

#[test]
fn strip_removes_every_occurrence() {
    assert_eq!(
        strip_boilerplate("x Here are the key events summarized: y Here are the key events summarized:"),
        "x  y"
    );
}

#[test]
fn strip_leaves_other_text() {
    assert_eq!(strip_boilerplate("  Nothing to remove.  "), "Nothing to remove.");
}

#[test]
fn strip_twice_is_strip_once() {
    let once = strip_boilerplate("  Here are the key events summarized: A met B.\n");
    let twice = strip_boilerplate(&once);
    assert_eq!(once, "A met B.");
    assert_eq!(twice, once);
}

#[test]
fn strip_nested_preamble_leaves_one_behind() {
    let raw = "Here are the kHere are the key events summarized:ey events summarized:";
    let once = strip_boilerplate(raw);
    assert_eq!(once, "Here are the key events summarized:");
    assert_eq!(strip_boilerplate(&once), "");
}

#[test]
fn combine_puts_blank_lines_between() {
    let parts = vec!["first".to_string(), "second".to_string(), "third".to_string()];
    assert_eq!(combine_summaries(&parts), "first\n\nsecond\n\nthird");
}

#[test]
fn combine_empty_and_single() {
    assert_eq!(combine_summaries(&Vec::new()), "");
    assert_eq!(combine_summaries(&vec!["only".to_string()]), "only");
}

#[test]
fn combine_keeps_order() {
    let parts = vec!["b".to_string(), "a".to_string()];
    let all = combine_summaries(&parts);
    assert!(all.find("b").unwrap() < all.find("a").unwrap());
}
