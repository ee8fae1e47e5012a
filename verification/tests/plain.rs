use fasttext::blocks::resp;
use fasttext::labels::{label_lines, scored_lines};
use fasttext::outcome::ParseError;
use fasttext::vectors::parse_vec;

/// Every text of at most `longest` characters over `alphabet`.
fn texts(alphabet: &[char], longest: usize) -> Vec<String> {
    let mut all = vec![String::new()];
    let mut from = 0;
    for _ in 0..longest {
        let to = all.len();
        for i in from..to {
            for c in alphabet {
                let mut next = all[i].clone();
                next.push(*c);
                all.push(next);
            }
        }
        from = to;
    }
    all
}

fn number(token: &str) -> Result<String, ParseError> {
    match token.parse::<f64>() {
        Ok(_) => Ok(token.to_string()),
        Err(_) => Err(ParseError::BadNumber(token.to_string())),
    }
}

fn plain_labels(text: &str) -> Vec<Vec<String>> {
    let mut out = Vec::new();
    for line in text.split("\n") {
        let mut inner = Vec::new();
        for v in line.split(" ") {
            if v != "" {
                inner.push(v.to_string());
            }
        }
        if inner.len() != 0 {
            out.push(inner);
        }
    }
    out
}

fn plain_scored(text: &str) -> Result<Vec<Vec<(String, String)>>, ParseError> {
    let mut out = Vec::new();
    for line in text.split("\n") {
        let mut found = Vec::new();
        let mut label = None;
        for u in line.split(" ") {
            if u != "" {
                match label.take() {
                    None => label = Some(u),
                    Some(l) => found.push((l.to_string(), number(u)?)),
                }
            }
        }
        if label.is_some() {
            return Err(ParseError::MissingScore(line.to_string()));
        }
        if found.len() > 0 {
            out.push(found);
        }
    }
    Ok(out)
}

fn plain_resp(prompt: &str, text: &str) -> Result<Vec<Vec<(String, String)>>, ParseError> {
    let mut out = Vec::new();
    for (start, _) in text.match_indices(prompt) {
        let mut found = Vec::new();
        let mut first = true;
        for line in text[start..].split("\n") {
            let fields: Vec<&str> = line.split(" ").collect();
            if fields.len() == 2 {
                found.push((fields[0].to_string(), number(fields[1])?));
            } else if fields.len() == 4 && first {
                found.push((fields[2].to_string(), number(fields[3])?));
                first = false;
            } else if line == prompt || fields.len() == 4 {
                break;
            } else if line.is_empty() {
                continue;
            } else {
                return Err(ParseError::Misformatted(line.to_string()));
            }
        }
        if found.len() > 0 {
            out.push(found);
        }
    }
    Ok(out)
}

fn plain_vectors(text: &str, sentence: Option<&str>) -> Result<Vec<Vec<String>>, ParseError> {
    let text = match sentence {
        None => text.to_string(),
        Some(echo) => text.replace(echo, ""),
    };
    let mut out = Vec::new();
    for line in text.split("\n") {
        let mut found = Vec::new();
        let mut skip = sentence.is_none();
        for t in line.split(" ") {
            if t != "" {
                if skip {
                    skip = false;
                } else {
                    found.push(number(t)?);
                }
            }
        }
        if found.len() > 0 {
            out.push(found);
        }
    }
    Ok(out)
}

#[test]
fn label_lines_reads_as_the_plain_reading_does() {
    for text in texts(&['a', 'b', ' ', '\n'], 7) {
        assert_eq!(label_lines(&text), plain_labels(&text), "{:?}", text);
    }
}

#[test]
fn scored_lines_reads_as_the_plain_reading_does() {
    for text in texts(&['a', '1', '.', ' ', '\n'], 6) {
        assert_eq!(scored_lines(&text), plain_scored(&text), "{:?}", text);
    }
}

#[test]
fn resp_reads_as_the_plain_reading_does() {
    for text in texts(&['Q', 'a', '1', ' ', '\n'], 6) {
        for prompt in ["Q ", "Q", "Q a ", ""] {
            assert_eq!(resp(prompt, &text), plain_resp(prompt, &text), "{:?} {:?}", prompt, text);
        }
    }
}

#[test]
fn resp_reads_longer_output_as_the_plain_reading_does() {
    let lines = ["Q w a 1", "b 2", "Q w ", "Q w c x", "", "d e f", "Q w g 3 ", "h 4"];
    let mut outputs = vec![String::new()];
    let mut from = 0;
    for _ in 0..4 {
        let to = outputs.len();
        for i in from..to {
            for line in lines {
                for end in ["\n", ""] {
                    outputs.push(format!("{}{}{}", outputs[i], line, end));
                }
            }
        }
        from = to;
    }
    for text in outputs {
        assert_eq!(resp("Q w ", &text), plain_resp("Q w ", &text), "{:?}", text);
    }
}

#[test]
fn parse_vec_reads_as_the_plain_reading_does() {
    for text in texts(&['a', '1', '.', ' ', '\n'], 6) {
        assert_eq!(parse_vec(&text, None), plain_vectors(&text, None), "{:?}", text);
        for echo in ["a", "a 1", "", "1\n"] {
            assert_eq!(
                parse_vec(&text, Some(echo)),
                plain_vectors(&text, Some(echo)),
                "{:?} {:?}",
                echo,
                text
            );
        }
    }
}
