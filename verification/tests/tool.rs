use std::collections::HashSet;

use fasttext::blocks::resp;
use fasttext::command::{
    cbow, min_cbow, min_skipgram, nn, predict, predict_prob, sentence_vector, skipgram, supervised,
    word_vector, Training,
};
use fasttext::coordinator::{start, step, Action, Event, Phase};
use fasttext::install::{install_commands, install_outcome, VERSION};
use fasttext::invocation::Invocation;
use fasttext::labels::{label_lines, scored_lines};
use fasttext::options::Options;
use fasttext::vectors::parse_vec;

/// What the tool prints for a query of `queries` words with `k` neighbours
/// each. The neighbours of a word differ from word to word unless `shared`.
fn neighbours(queries: usize, k: usize, shared: bool) -> String {
    let mut text = String::from("Pre-computing word vectors... done.\n");
    for q in 0..queries {
        text.push_str("Query word? ");
        for n in 0..k {
            let owner = if shared { 0 } else { q };
            text.push_str(&format!("w{}_{} 0.{}\n", owner, n, 900 - n));
        }
    }
    text.push_str("Query word? ");
    text
}

fn ran(status: Option<i32>, stdout: String) -> Invocation {
    Invocation { status, stdout, stderr: String::new() }
}

fn set(v: Vec<Vec<(String, String)>>) -> HashSet<String> {
    let mut out = HashSet::new();
    for v0 in v.into_iter() {
        for t in v0.into_iter() {
            let (st, _) = t;
            out.insert(st);
        }
    }
    out
}

fn sim(a: &HashSet<String>, b: &HashSet<String>) -> usize {
    a.intersection(b).count()
}

#[test]
fn test_install() {
    let cmds = install_commands(VERSION);
    let statuses: Vec<Option<i32>> = cmds.iter().map(|_| Some(0)).collect();
    assert_eq!(install_outcome(&statuses), None);

    // "./fasttext" without arguments prints its usage and leaves with 1: the
    // tool is there. A shell that does not find it leaves with 127.
    let (phase, action) = start();
    assert_eq!(action, Action::Run);
    assert_eq!(step(phase, Event::Ran { status: Some(1), present: true }).1, Action::Return);
    assert_eq!(
        step(phase, Event::Ran { status: Some(127), present: false }),
        (Phase::Installing, Action::Install)
    );
}

#[test]
fn test_nn() {
    assert_eq!(nn("lesbian", "sample.bin", 10), "echo lesbian | ./fasttext nn sample.bin 10");
    let out = resp("Query word? ", &neighbours(1, 10, false)).unwrap();
    assert_eq!(out.len(), 1); // number of words queried
    assert_eq!(out[0].len(), 10); // k

    assert_eq!(
        nn("lesbian gay", "sample.bin", 5),
        "echo lesbian gay | ./fasttext nn sample.bin 5"
    );
    let out = resp("Query word? ", &neighbours(2, 5, false)).unwrap();
    assert_eq!(out.len(), 2);
    assert_eq!(out[0].len(), 5);

    assert_eq!(
        nn("lesbian gay bisexual", "sample.bin", 8),
        "echo lesbian gay bisexual | ./fasttext nn sample.bin 8"
    );
    let out = resp("Query word? ", &neighbours(3, 8, false)).unwrap();
    assert_eq!(out.len(), 3);
    assert_eq!(out[0].len(), 8);

    assert_eq!(
        nn("lesbian gay bisexual transgender", "sample.bin", 1),
        "echo lesbian gay bisexual transgender | ./fasttext nn sample.bin 1"
    );
    let out = resp("Query word? ", &neighbours(4, 1, false)).unwrap();
    assert_eq!(out.len(), 4);
    assert_eq!(out[0].len(), 1);
}

/// Two ways to train a model come to the same: the nearest neighbours that
/// either model prints are read alike.
fn embedding(
    min_fn: fn(&str, &str) -> Training,
    reg_fn: fn(&Options) -> String,
    verb: &str,
    min_name: &str,
    reg_name: &str,
) {
    let input = "sample_text.txt";
    let mut args = Options::new();
    args.insert("input", input);
    args.insert("output", reg_name);

    let k = 10;

    for w in ["friend", "day", "door"].iter() {
        let run = min_fn(input, min_name);
        assert_eq!(
            run.command,
            format!("./fasttext {} -input {} -output {}", verb, input, min_name)
        );
        let m1 = run.model_after(&ran(Some(0), String::new())).unwrap();
        assert_eq!(
            reg_fn(&args),
            format!("./fasttext {} -input {} -output {}", verb, input, reg_name)
        );
        let m2 = min_name.to_string() + ".bin";
        assert_eq!(m1, m2);

        assert_eq!(nn(w, &m1, k), format!("echo {} | ./fasttext nn {} {}", w, m2, k));
        let r1 = resp("Query word? ", &neighbours(1, k as usize, true)).unwrap();
        let r2 = resp("Query word? ", &neighbours(1, k as usize, true)).unwrap();

        assert_eq!(r1.len(), r2.len());
        for i in 0..r1.len() {
            assert_eq!(r1[i].len(), r2[i].len());
            assert_eq!(r1[i].len(), k as usize);
        }

        assert!(sim(&set(r1), &set(r2)) > (0.9 * k as f64) as usize);
    }
}

#[test]
fn test_skipgram() {
    embedding(min_skipgram, skipgram, "skipgram", "test_min_skipgram", "test_skipgram");
}

#[test]
fn test_cbow() {
    embedding(min_cbow, cbow, "cbow", "test_min_cbow", "test_cbow");
}

#[test]
fn test_supervised_and_predicts() {
    let model = "sup";

    let mut args = Options::new();
    args.insert("input", "sample_text.txt");
    args.insert("output", model);

    assert_eq!(supervised(&args), "./fasttext supervised -input sample_text.txt -output sup");

    let model = model.to_string() + ".bin";

    assert_eq!(predict(&model, "t.txt", 1), "./fasttext predict sup.bin t.txt 1");
    let p = label_lines("__label__sauce\n__label__stove\n");
    assert_eq!(p[0].len(), 1);
    assert_eq!(p.len(), 2);

    assert_eq!(predict(&model, "t.txt", 2), "./fasttext predict sup.bin t.txt 2");
    let p = label_lines("__label__sauce __label__cheese\n__label__stove __label__cast-iron\n");
    assert_eq!(p[0].len(), 2);
    assert_eq!(p.len(), 2);

    assert_eq!(predict_prob(&model, "t.txt", 1), "./fasttext predict-prob sup.bin t.txt 1");
    let p = scored_lines("__label__sauce 0.75\n__label__stove 0.501953\n").unwrap();
    assert_eq!(p[0].len(), 1);
    assert_eq!(p.len(), 2);

    assert_eq!(predict_prob(&model, "t.txt", 2), "./fasttext predict-prob sup.bin t.txt 2");
    let p = scored_lines(
        "__label__sauce 0.75 __label__cheese 0.125\n__label__stove 0.5 __label__cast-iron 1e-05\n",
    )
    .unwrap();
    assert_eq!(p[0].len(), 2);
    assert_eq!(p.len(), 2);
}

#[test]
fn test_word_vector() {
    assert_eq!(
        word_vector("gay math queen", "sample.bin"),
        "echo \"gay math queen\" | ./fasttext print-word-vectors sample.bin"
    );
    let printed = "gay 0.1 -0.2 0.3 1e-05 \nmath 0.4 0.5 -0.6 0.7 \nqueen 0.8 0.9 1 -1.1 \n";
    let v = parse_vec(printed, None).unwrap();
    assert_eq!(v.len(), 3); // three words go in, three wordvecs come out

    let mut hs = HashSet::new();
    for wv in v.iter() {
        hs.insert(wv.len());
    }
    assert_eq!(hs.len(), 1); // vectors are all the same length

    assert_eq!(
        word_vector("naps", "sample.bin"),
        "echo \"naps\" | ./fasttext print-word-vectors sample.bin"
    );
    let v = parse_vec("naps 0.1 0.2 0.3 0.4 \n", None).unwrap();
    assert_eq!(v.len(), 1);
}

#[test]
fn test_sentence_vector() {
    let sentence = "To die, to sleep – to sleep, perchance to dream – ay, there's the rub, for in this sleep of death what dreams may come…";
    assert_eq!(
        sentence_vector(sentence, "sample.bin"),
        format!("echo \"{}\" | ./fasttext print-sentence-vectors sample.bin", sentence)
    );
    let printed = format!("{} 0.011 -0.022 0.033 4e-05 \n", sentence);
    let v = parse_vec(&printed, Some(sentence)).unwrap();
    assert_eq!(v.len(), 1);
    assert_eq!(v[0], vec!["0.011", "-0.022", "0.033", "4e-05"]);
}
