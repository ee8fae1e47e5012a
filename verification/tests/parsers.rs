use fasttext::blocks::{resp, scan_line, ScanState, ANALOGY_PROMPT, NEIGHBOUR_PROMPT};
use fasttext::labels::{label_lines, scored_lines};
use fasttext::outcome::ParseError;
use fasttext::vectors::parse_vec;

fn strings(words: &[&str]) -> Vec<String> {
    words.iter().map(|w| w.to_string()).collect()
}

fn pair(label: &str, score: &str) -> (String, String) {
    (label.to_string(), score.to_string())
}

fn chars(text: &str) -> Vec<char> {
    text.chars().collect()
}

fn floats(tokens: &[String]) -> Vec<f64> {
    tokens.iter().map(|t| t.parse::<f64>().unwrap()).collect()
}

#[test]
fn label_lines_drops_blank_lines() {
    assert_eq!(label_lines("a b\nc\n\n"), vec![strings(&["a", "b"]), strings(&["c"])]);
}

#[test]
fn label_lines_of_nothing() {
    assert_eq!(label_lines(""), Vec::<Vec<String>>::new());
    assert_eq!(label_lines("\n\n\n"), Vec::<Vec<String>>::new());
    assert_eq!(label_lines("   \n \n"), Vec::<Vec<String>>::new());
}

#[test]
fn label_lines_ignores_runs_of_blanks() {
    assert_eq!(
        label_lines("  __label__a   __label__b \n__label__c"),
        vec![strings(&["__label__a", "__label__b"]), strings(&["__label__c"])]
    );
}

#[test]
fn label_lines_keeps_other_white_space_in_tokens() {
    assert_eq!(label_lines("a\tb\r\nc"), vec![strings(&["a\tb\r"]), strings(&["c"])]);
}

#[test]
fn label_lines_keeps_characters_outside_ascii() {
    assert_eq!(
        label_lines("étiquette 日本語\nß"),
        vec![strings(&["étiquette", "日本語"]), strings(&["ß"])]
    );
}

#[test]
fn scored_lines_pairs_labels_and_scores() {
    let found = scored_lines("cat 0.5 dog 0.2\n").unwrap();
    assert_eq!(found, vec![vec![pair("cat", "0.5"), pair("dog", "0.2")]]);
    let values: Vec<Vec<(String, f64)>> = found
        .into_iter()
        .map(|line| line.into_iter().map(|(l, s)| (l, s.parse::<f64>().unwrap())).collect())
        .collect();
    assert_eq!(
        values,
        vec![vec![("cat".to_string(), 0.5), ("dog".to_string(), 0.2)]]
    );
}

#[test]
fn scored_lines_rejects_a_label_without_score() {
    assert_eq!(
        scored_lines("cat 0.5 dog\n"),
        Err(ParseError::MissingScore("cat 0.5 dog".to_string()))
    );
}

#[test]
fn scored_lines_rejects_a_score_that_is_no_number() {
    assert_eq!(
        scored_lines("cat 0.5\ndog high\nowl 0.1"),
        Err(ParseError::BadNumber("high".to_string()))
    );
}

#[test]
fn scored_lines_reports_the_first_failure() {
    assert_eq!(
        scored_lines("a 1 b\nc x"),
        Err(ParseError::MissingScore("a 1 b".to_string()))
    );
    assert_eq!(scored_lines("a x b\n"), Err(ParseError::BadNumber("x".to_string())));
}

#[test]
fn scored_lines_keeps_the_order_of_the_line() {
    let found = scored_lines("__label__b 0.7 __label__a 0.2 __label__c 0.1\n\n__label__z 1\n")
        .unwrap();
    assert_eq!(
        found,
        vec![
            vec![pair("__label__b", "0.7"), pair("__label__a", "0.2"), pair("__label__c", "0.1")],
            vec![pair("__label__z", "1")],
        ]
    );
}

#[test]
fn scored_lines_of_nothing() {
    assert_eq!(scored_lines(""), Ok(vec![]));
    assert_eq!(scored_lines("\n \n"), Ok(vec![]));
}

#[test]
fn resp_reads_two_blocks() {
    let text = "Query word? a 0.5\nb 0.4\nQuery word? c 0.3\nd 0.2\ne 0.1\n";
    let found = resp("Query word? ", text).unwrap();
    assert_eq!(text.matches("Query word? ").count(), 2);
    assert_eq!(found.len(), 2);
    assert_eq!(found[0], vec![pair("a", "0.5"), pair("b", "0.4")]);
    assert_eq!(found[1], vec![pair("c", "0.3"), pair("d", "0.2"), pair("e", "0.1")]);
}

#[test]
fn prompts_are_those_of_the_tool() {
    assert_eq!(NEIGHBOUR_PROMPT, "Query word? ");
    assert_eq!(ANALOGY_PROMPT, "Query triplet (A - B + C)? ");
}

#[test]
fn resp_reads_what_the_tool_prints() {
    let text = "Pre-computing word vectors... done.\nQuery word? gay 0.92\nqueer 0.9\nQuery word? ";
    assert_eq!(
        resp("Query word? ", text),
        Ok(vec![vec![pair("gay", "0.92"), pair("queer", "0.9")]])
    );
}

#[test]
fn resp_drops_blocks_without_results() {
    assert_eq!(resp("Query word? ", "Query word? \nQuery word? "), Ok(vec![]));
    assert_eq!(resp("Query word? ", "nothing to see"), Ok(vec![]));
    assert_eq!(resp("Query word? ", ""), Ok(vec![]));
}

#[test]
fn resp_rejects_a_line_of_another_shape() {
    assert_eq!(
        resp("Query word? ", "Query word? a 0.5\nthree fields here\n"),
        Err(ParseError::Misformatted("three fields here".to_string()))
    );
    assert_eq!(
        resp("Query word? ", "Query word? a 0.5\nb  0.4\n"),
        Err(ParseError::Misformatted("b  0.4".to_string()))
    );
}

#[test]
fn resp_rejects_a_score_that_is_no_number() {
    assert_eq!(
        resp("Query word? ", "Query word? a 0.5\nb much\n"),
        Err(ParseError::BadNumber("much".to_string()))
    );
    assert_eq!(
        resp("Query word? ", "Query word? a lot\n"),
        Err(ParseError::BadNumber("lot".to_string()))
    );
}

#[test]
fn resp_takes_the_second_line_of_four_fields_for_the_next_query() {
    let text = "Query word? a 0.5\nx y b 0.4\nc 0.3";
    assert_eq!(resp("Query word? ", text), Ok(vec![vec![pair("a", "0.5")]]));
}

#[test]
fn resp_takes_results_before_the_line_of_four_fields() {
    let text = "Query word? \n";
    assert_eq!(resp("Query word? ", text), Ok(vec![]));
    let text = "Query? a 0.5\nw x b 0.4\ny z c 0.3\n";
    assert_eq!(resp("Query? ", text), Err(ParseError::Misformatted("Query? a 0.5".to_string())));
}

#[test]
fn resp_finds_a_prompt_in_the_middle_of_a_line() {
    let text = "noise Query word? a 0.5\nb 0.4";
    assert_eq!(
        resp("Query word? ", text),
        Ok(vec![vec![pair("a", "0.5"), pair("b", "0.4")]])
    );
}

#[test]
fn resp_with_the_empty_prompt_starts_a_block_at_each_position() {
    assert_eq!(resp("", "a 1"), Err(ParseError::Misformatted("1".to_string())));
    assert_eq!(resp("", ""), Ok(vec![]));
    assert_eq!(resp("", "\n\n"), Ok(vec![]));
}

#[test]
fn scan_line_steps_through_a_block() {
    let prompt = chars("Query word? ");
    let first = scan_line(ScanState::AwaitingFirstLine, &chars("Query word? a 0.5"), &prompt);
    assert_eq!(first, Ok((ScanState::InBlock, Some(pair("a", "0.5")))));
    let plain = scan_line(ScanState::InBlock, &chars("b 0.4"), &prompt);
    assert_eq!(plain, Ok((ScanState::InBlock, Some(pair("b", "0.4")))));
    let early = scan_line(ScanState::AwaitingFirstLine, &chars("b 0.4"), &prompt);
    assert_eq!(early, Ok((ScanState::AwaitingFirstLine, Some(pair("b", "0.4")))));
    let next = scan_line(ScanState::InBlock, &chars("Query word? c 0.3"), &prompt);
    assert_eq!(next, Ok((ScanState::BlockClosed, None)));
    let end = scan_line(ScanState::InBlock, &chars("Query word? "), &prompt);
    assert_eq!(end, Ok((ScanState::BlockClosed, None)));
    let blank = scan_line(ScanState::InBlock, &chars(""), &prompt);
    assert_eq!(blank, Ok((ScanState::InBlock, None)));
    let closed = scan_line(ScanState::BlockClosed, &chars("any thing at all here"), &prompt);
    assert_eq!(closed, Ok((ScanState::BlockClosed, None)));
    let bad = scan_line(ScanState::InBlock, &chars("one"), &prompt);
    assert_eq!(bad, Err(ParseError::Misformatted("one".to_string())));
}

#[test]
fn parse_vec_drops_the_word_of_each_line() {
    let found = parse_vec("gay 0.1 0.2 0.3\nqueen 0.4 0.5 0.6\n", None).unwrap();
    assert_eq!(found, vec![strings(&["0.1", "0.2", "0.3"]), strings(&["0.4", "0.5", "0.6"])]);
    let values: Vec<Vec<f64>> = found.iter().map(|line| floats(line)).collect();
    assert_eq!(values, vec![vec![0.1, 0.2, 0.3], vec![0.4, 0.5, 0.6]]);
}

#[test]
fn parse_vec_drops_lines_without_components() {
    assert_eq!(parse_vec("word\n\n  \nother 1 2\n", None), Ok(vec![strings(&["1", "2"])]));
    assert_eq!(parse_vec("", None), Ok(vec![]));
}

#[test]
fn parse_vec_takes_any_word_for_a_name() {
    assert_eq!(parse_vec("0.5 1 2\n", None), Ok(vec![strings(&["1", "2"])]));
    assert_eq!(parse_vec("  w   1   2 ", None), Ok(vec![strings(&["1", "2"])]));
}

#[test]
fn parse_vec_rejects_a_component_that_is_no_number() {
    assert_eq!(
        parse_vec("gay 0.1 o.2 0.3\n", None),
        Err(ParseError::BadNumber("o.2".to_string()))
    );
    assert_eq!(
        parse_vec("a 1\nb 2 two\nc three", None),
        Err(ParseError::BadNumber("two".to_string()))
    );
}

#[test]
fn parse_vec_takes_the_sentence_out() {
    let sentence = "to be or not";
    let found = parse_vec("to be or not 0.1 -0.2 3e-05\n", Some(sentence)).unwrap();
    assert_eq!(found, vec![strings(&["0.1", "-0.2", "3e-05"])]);
    assert_eq!(floats(&found[0]), vec![0.1, -0.2, 3e-05]);
}

#[test]
fn parse_vec_takes_every_token_for_a_component_after_the_sentence() {
    assert_eq!(parse_vec("0.1 0.2\n", Some("absent")), Ok(vec![strings(&["0.1", "0.2"])]));
    assert_eq!(
        parse_vec("left 0.1\n", Some("absent")),
        Err(ParseError::BadNumber("left".to_string()))
    );
}

#[test]
fn parse_vec_takes_every_occurrence_of_the_sentence_out() {
    assert_eq!(
        parse_vec("aa 1 aa 2\naaa 3", Some("aa")),
        Err(ParseError::BadNumber("a".to_string()))
    );
    assert_eq!(
        parse_vec("ab 1 ab 2\nab 3", Some("ab")),
        Ok(vec![strings(&["1", "2"]), strings(&["3"])])
    );
    assert_eq!(parse_vec("1 2", Some("")), Ok(vec![strings(&["1", "2"])]));
}

#[test]
fn messages_name_the_text_that_gave_offence() {
    assert_eq!(
        ParseError::Misformatted("a b c".to_string()).message(),
        "misformatted line in input: a b c"
    );
    assert_eq!(ParseError::BadNumber("o.5".to_string()).message(), "not a number: o.5");
    assert_eq!(
        ParseError::MissingScore("cat 0.5 dog".to_string()).message(),
        "label without a score in line: cat 0.5 dog"
    );
}
