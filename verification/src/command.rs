//! The command lines that drive the tool.
//!
//! Each function builds the text of one shell command and runs nothing. The
//! tool is called by a fixed relative path; queries reach it through a pipe
//! from `echo`.

use vstd::prelude::*;
use vstd::string::StringExecFns;
use crate::invocation::{Invocation, ToolFailure};
use crate::options::{distinct_names, Entry, Options};
use crate::text::{decimal, lemma_tokens_join, lemma_tokens_word, push_decimal, tokens, unbroken};

verus! {

/// The path by which the commands call the tool: the executable lies in the
/// working directory.
pub const EXECUTABLE: &'static str = "./fasttext";

/// The command that runs the tool with the arguments `args`.
pub open spec fn invocation_text(args: Seq<char>) -> Seq<char> {
    "./fasttext "@ + args
}

/// The subcommand `name` followed by ` -name value` for each of `entries`,
/// in their order.
pub open spec fn rendered(name: Seq<char>, entries: Seq<Entry>) -> Seq<char>
    decreases entries.len(),
{
    if entries.len() == 0 {
        name
    } else {
        rendered(name, entries.drop_last()) + " -"@ + entries.last().0 + " "@ + entries.last().1
    }
}

/// The arguments of a classification of the lines of `inp`: the subcommand
/// `verb`, the model, the input and the number of labels wanted.
pub open spec fn classify_text(verb: Seq<char>, model: Seq<char>, inp: Seq<char>, k: nat) -> Seq<
    char,
> {
    verb + " "@ + model + " "@ + inp + " "@ + decimal(k)
}

/// The arguments of a training run of `verb` with nothing but the mandatory
/// options.
pub open spec fn minimal_text(verb: Seq<char>, input: Seq<char>, output: Seq<char>) -> Seq<char> {
    verb + " -input "@ + input + " -output "@ + output
}

/// The file that a training run with the output base `output` writes its
/// model to.
pub open spec fn model_text(output: Seq<char>) -> Seq<char> {
    output + ".bin"@
}

/// The command that hands `words` to a nearest-neighbour query.
pub open spec fn nn_text(words: Seq<char>, model: Seq<char>, k: nat) -> Seq<char> {
    "echo "@ + words + " | ./fasttext nn "@ + model + " "@ + decimal(k)
}

/// The command that hands `queries` to an analogy query.
pub open spec fn analogies_text(queries: Seq<char>, model: Seq<char>, k: nat) -> Seq<char> {
    "echo \""@ + queries + "\" | ./fasttext analogies "@ + model + " "@ + decimal(k)
}

/// The command that hands `input` to the query `verb`, which prints
/// vectors.
pub open spec fn vector_text(verb: Seq<char>, input: Seq<char>, model: Seq<char>) -> Seq<char> {
    "echo \""@ + input + "\" | ./fasttext "@ + verb + " "@ + model
}

/// The command that runs the tool with the arguments `args`.
pub fn invocation(args: &str) -> (cmd: String)
    ensures
        cmd@ == invocation_text(args@),
{
    let mut cmd = String::from_str("./fasttext ");
    cmd.append(args);
    cmd
}

/// The subcommand `name` with each option of `args` as ` -name value`, in
/// the order of the entries. Nothing is quoted: a name or value that holds
/// a blank comes out as several words.
pub fn render(name: &str, args: &Options) -> (text: String)
    ensures
        text@ == rendered(name@, args.entries()),
{
    let mut text = String::from_str(name);
    let n = args.len();
    let mut i: usize = 0;
    assert(args.entries().take(0) =~= Seq::<Entry>::empty());
    while i < n
        invariant
            n == args.entries().len(),
            i <= n,
            text@ == rendered(name@, args.entries().take(i as int)),
        decreases n - i,
    {
        assert(args.entries().take(i + 1).drop_last() =~= args.entries().take(i as int));
        if let Some((option, value)) = args.entry(i) {
            text.append(" -");
            text.append(option.as_str());
            text.append(" ");
            text.append(value.as_str());
        }
        i += 1;
    }
    assert(args.entries().take(n as int) =~= args.entries());
    text
}

/// Where neither the subcommand nor any name or value holds a blank, and the
/// subcommand and the values are not empty, the words of a rendered command
/// are the subcommand and then, for each entry in turn, a dash with the
/// entry's name and the entry's value: one such pair of words for each
/// entry, whatever the order of the entries. Where no name occurs twice, no
/// two of these pairs begin with the same word.
pub proof fn lemma_render_words(name: Seq<char>, entries: Seq<Entry>)
    requires
        name.len() > 0,
        unbroken(name),
        forall|i: int|
            0 <= i < entries.len() ==> unbroken((#[trigger] entries[i]).0) && unbroken(entries[i].1)
                && entries[i].1.len() > 0,
    ensures
        tokens(rendered(name, entries)).len() == 1 + 2 * entries.len(),
        tokens(rendered(name, entries))[0] == name,
        forall|i: int|
            0 <= i < entries.len() ==> #[trigger] tokens(rendered(name, entries))[1 + 2 * i]
                == seq!['-'] + entries[i].0,
        forall|i: int|
            0 <= i < entries.len() ==> #[trigger] tokens(rendered(name, entries))[2 + 2 * i]
                == entries[i].1,
        distinct_names(entries) ==> forall|i: int, j: int|
            0 <= i < j < entries.len() ==> #[trigger] tokens(rendered(name, entries))[1 + 2 * i]
                != #[trigger] tokens(rendered(name, entries))[1 + 2 * j],
    decreases entries.len(),
{
    let words = tokens(rendered(name, entries));
    if entries.len() == 0 {
        lemma_tokens_word(name);
    } else {
        let before = entries.drop_last();
        let (option, value) = entries.last();
        let flag = seq!['-'] + option;
        let head = rendered(name, before);
        lemma_render_words(name, before);
        reveal_strlit(" -");
        reveal_strlit(" ");
        assert(" -"@ =~= seq![' ', '-']);
        assert(" "@ =~= seq![' ']);
        assert(rendered(name, entries) =~= (head + seq![' '] + flag) + seq![' '] + value);
        lemma_tokens_join(head + seq![' '] + flag, value);
        lemma_tokens_join(head, flag);
        lemma_tokens_word(flag);
        lemma_tokens_word(value);
        assert(words =~= tokens(head).push(flag).push(value));
        assert forall|i: int| 0 <= i < entries.len() implies #[trigger] words[1 + 2 * i] == seq![
            '-',
        ] + entries[i].0 && words[2 + 2 * i] == entries[i].1 by {
            if i < before.len() {
                assert(entries[i] == before[i]);
                assert(words[1 + 2 * i] == tokens(head)[1 + 2 * i]);
                assert(words[2 + 2 * i] == tokens(head)[2 + 2 * i]);
            }
        }
        if distinct_names(entries) {
            assert forall|i: int, j: int| 0 <= i < j < entries.len() implies #[trigger] words[1 + 2
                * i] != #[trigger] words[1 + 2 * j] by {
                let a = seq!['-'] + entries[i].0;
                let b = seq!['-'] + entries[j].0;
                if a == b {
                    assert(a.skip(1) =~= entries[i].0);
                    assert(b.skip(1) =~= entries[j].0);
                }
            }
        }
    }
}

fn trained(verb: &str, args: &Options) -> (cmd: String)
    ensures
        cmd@ == invocation_text(rendered(verb@, args.entries())),
{
    let text = render(verb, args);
    invocation(text.as_str())
}

/// The command that trains a classifier on labelled lines.
pub fn supervised(args: &Options) -> (cmd: String)
    ensures
        cmd@ == invocation_text(rendered("supervised"@, args.entries())),
{
    trained("supervised", args)
}

/// The command that shrinks a model.
pub fn quantize(args: &Options) -> (cmd: String)
    ensures
        cmd@ == invocation_text(rendered("quantize"@, args.entries())),
{
    trained("quantize", args)
}

/// The command that trains a skipgram model.
pub fn skipgram(args: &Options) -> (cmd: String)
    ensures
        cmd@ == invocation_text(rendered("skipgram"@, args.entries())),
{
    trained("skipgram", args)
}

/// The command that trains a continuous bag of words model.
pub fn cbow(args: &Options) -> (cmd: String)
    ensures
        cmd@ == invocation_text(rendered("cbow"@, args.entries())),
{
    trained("cbow", args)
}

fn classify(verb: &str, model: &str, inp: &str, k: u32) -> (cmd: String)
    ensures
        cmd@ == invocation_text(classify_text(verb@, model@, inp@, k as nat)),
{
    let mut args = String::from_str(verb);
    args.append(" ");
    args.append(model);
    args.append(" ");
    args.append(inp);
    args.append(" ");
    push_decimal(&mut args, k as u64);
    invocation(args.as_str())
}

/// The command that prints the `k` best labels for each line of the file
/// `inp`.
pub fn predict(model: &str, inp: &str, k: u32) -> (cmd: String)
    ensures
        cmd@ == invocation_text(classify_text("predict"@, model@, inp@, k as nat)),
{
    classify("predict", model, inp, k)
}

/// The command that prints the `k` best labels for each line of the file
/// `inp`, each with its probability.
pub fn predict_prob(model: &str, inp: &str, k: u32) -> (cmd: String)
    ensures
        cmd@ == invocation_text(classify_text("predict-prob"@, model@, inp@, k as nat)),
{
    classify("predict-prob", model, inp, k)
}

/// The file that a training run with the output base `output` writes its
/// model to.
pub fn model_path(output: &str) -> (path: String)
    ensures
        path@ == model_text(output@),
{
    let mut path = String::from_str(output);
    path.append(".bin");
    path
}

/// A training run: the command to give, and the model file that it leaves
/// where it succeeds.
#[derive(Debug, PartialEq, Eq)]
pub struct Training {
    pub command: String,
    pub model: String,
}

impl Training {
    /// The model file where the run, whose outcome is `outcome`, succeeded,
    /// and else the failure of the run's command.
    pub fn model_after(self, outcome: &Invocation) -> (r: Result<String, ToolFailure>)
        ensures
            match r {
                Ok(model) => outcome.status == Some(0i32) && model == self.model,
                Err(e) => outcome.status != Some(0i32) && e.command == self.command && e.status
                    == outcome.status,
            },
    {
        if outcome.success() {
            Ok(self.model)
        } else {
            Err(ToolFailure { command: self.command, status: outcome.status })
        }
    }
}

fn minimal(verb: &str, input: &str, output: &str) -> (run: Training)
    ensures
        run.command@ == invocation_text(minimal_text(verb@, input@, output@)),
        run.model@ == model_text(output@),
{
    let mut args = String::from_str(verb);
    args.append(" -input ");
    args.append(input);
    args.append(" -output ");
    args.append(output);
    Training { command: invocation(args.as_str()), model: model_path(output) }
}

/// The training of a skipgram model on the file `input` with every option
/// at its default. The model is the file `output` with the tool's suffix.
pub fn min_skipgram(input: &str, output: &str) -> (run: Training)
    ensures
        run.command@ == invocation_text(minimal_text("skipgram"@, input@, output@)),
        run.model@ == model_text(output@),
{
    minimal("skipgram", input, output)
}

/// The training of a continuous bag of words model on the file `input` with
/// every option at its default. The model is the file `output` with the
/// tool's suffix.
pub fn min_cbow(input: &str, output: &str) -> (run: Training)
    ensures
        run.command@ == invocation_text(minimal_text("cbow"@, input@, output@)),
        run.model@ == model_text(output@),
{
    minimal("cbow", input, output)
}

/// The command that asks for the `k` nearest neighbours of each of `words`,
/// which are single words with blanks between them.
pub fn nn(words: &str, model: &str, k: u32) -> (cmd: String)
    ensures
        cmd@ == nn_text(words@, model@, k as nat),
{
    let mut cmd = String::from_str("echo ");
    cmd.append(words);
    cmd.append(" | ./fasttext nn ");
    cmd.append(model);
    cmd.append(" ");
    push_decimal(&mut cmd, k as u64);
    cmd
}

/// The command that asks for the `k` best answers to each analogy of
/// `queries`.
pub fn analogies(queries: &str, model: &str, k: u32) -> (cmd: String)
    ensures
        cmd@ == analogies_text(queries@, model@, k as nat),
{
    let mut cmd = String::from_str("echo \"");
    cmd.append(queries);
    cmd.append("\" | ./fasttext analogies ");
    cmd.append(model);
    cmd.append(" ");
    push_decimal(&mut cmd, k as u64);
    cmd
}

fn vector_query(verb: &str, input: &str, model: &str) -> (cmd: String)
    ensures
        cmd@ == vector_text(verb@, input@, model@),
{
    let mut cmd = String::from_str("echo \"");
    cmd.append(input);
    cmd.append("\" | ./fasttext ");
    cmd.append(verb);
    cmd.append(" ");
    cmd.append(model);
    cmd
}

/// The command that prints the vector of each of `words`.
pub fn word_vector(words: &str, model: &str) -> (cmd: String)
    ensures
        cmd@ == vector_text("print-word-vectors"@, words@, model@),
{
    vector_query("print-word-vectors", words, model)
}

/// The command that prints the vector of `sentence`.
pub fn sentence_vector(sentence: &str, model: &str) -> (cmd: String)
    ensures
        cmd@ == vector_text("print-sentence-vectors"@, sentence@, model@),
{
    vector_query("print-sentence-vectors", sentence, model)
}

} // verus!
