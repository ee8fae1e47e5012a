//! Character-level helpers shared by the command builders and the parsers.
//!
//! Text is modelled as `Seq<char>`. The executable functions work on `&[char]`,
//! so that a piece of a text is a sub-slice and never a copy.

use vstd::prelude::*;
use vstd::slice::slice_subrange;

verus! {

/// The position of the first `c` in `s`, or `s.len()` where `s` holds none.
pub open spec fn first_index(s: Seq<char>, c: char) -> nat
    decreases s.len(),
{
    if s.len() == 0 || s[0] == c {
        0
    } else {
        1 + first_index(s.drop_first(), c)
    }
}

/// The pieces of `s` between the occurrences of `sep`, empty pieces included:
/// a text with `n` separators has `n + 1` pieces.
pub open spec fn split(s: Seq<char>, sep: char) -> Seq<Seq<char>>
    decreases s.len(),
{
    let i = first_index(s, sep);
    if i >= s.len() {
        seq![s]
    } else {
        seq![s.take(i as int)] + split(s.skip(i as int + 1), sep)
    }
}

/// Those of `pieces` that are not empty.
pub open spec fn nonempty(pieces: Seq<Seq<char>>) -> Seq<Seq<char>> {
    pieces.filter(|piece: Seq<char>| piece.len() > 0)
}

/// The non-empty pieces of `line` between single spaces.
pub open spec fn tokens(line: Seq<char>) -> Seq<Seq<char>> {
    nonempty(split(line, ' '))
}

/// Whether `word` holds no blank.
pub open spec fn unbroken(word: Seq<char>) -> bool {
    forall|i: int| 0 <= i < word.len() ==> word[i] != ' '
}

/// Whether `pat` stands in `s` at position `i`.
pub open spec fn occurs_at(s: Seq<char>, pat: Seq<char>, i: int) -> bool {
    0 <= i && i + pat.len() <= s.len() && s.subrange(i, i + pat.len()) == pat
}

/// The least position at which `pat` stands in `s`, if it stands anywhere.
/// The empty pattern stands at position 0 of every text.
pub open spec fn first_match(s: Seq<char>, pat: Seq<char>) -> Option<nat>
    decreases s.len(),
{
    if occurs_at(s, pat, 0) {
        Some(0)
    } else if s.len() == 0 {
        None
    } else {
        match first_match(s.drop_first(), pat) {
            Some(i) => Some(i + 1),
            None => None,
        }
    }
}

/// The character of the decimal digit `d`.
pub open spec fn digit_char(d: int) -> char {
    if d == 0 {
        '0'
    } else if d == 1 {
        '1'
    } else if d == 2 {
        '2'
    } else if d == 3 {
        '3'
    } else if d == 4 {
        '4'
    } else if d == 5 {
        '5'
    } else if d == 6 {
        '6'
    } else if d == 7 {
        '7'
    } else if d == 8 {
        '8'
    } else {
        '9'
    }
}

/// `n` in decimal digits, without leading zeros.
pub open spec fn decimal(n: nat) -> Seq<char>
    decreases n,
{
    if n < 10 {
        seq![digit_char(n as int)]
    } else {
        decimal(n / 10).push(digit_char((n % 10) as int))
    }
}

/// The texts that the slices of `pieces` hold.
pub open spec fn texts(pieces: Seq<&[char]>) -> Seq<Seq<char>> {
    Seq::new(pieces.len(), |i: int| pieces[i]@)
}

/// `first_index` is the least position that holds `c`.
pub proof fn lemma_first_index(s: Seq<char>, c: char)
    ensures
        first_index(s, c) <= s.len(),
        first_index(s, c) < s.len() ==> s[first_index(s, c) as int] == c,
        forall|j: int| 0 <= j < first_index(s, c) ==> s[j] != c,
    decreases s.len(),
{
    if s.len() == 0 || s[0] == c {
    } else {
        let t = s.drop_first();
        lemma_first_index(t, c);
        assert forall|j: int| 0 <= j < first_index(s, c) implies s[j] != c by {
            if j > 0 {
                assert(s[j] == t[j - 1]);
            }
        }
    }
}

/// A position that holds the first `c`, or the end where there is none, is
/// what `first_index` gives.
pub proof fn lemma_first_index_is(s: Seq<char>, c: char, i: int)
    requires
        0 <= i <= s.len(),
        forall|j: int| 0 <= j < i ==> s[j] != c,
        i < s.len() ==> s[i] == c,
    ensures
        first_index(s, c) == i,
{
    lemma_first_index(s, c);
    let k = first_index(s, c) as int;
    if k < i {
        assert(s[k] != c);
    }
}

/// A text without a separator is its own and only piece.
pub proof fn lemma_split_whole(s: Seq<char>, sep: char)
    requires
        forall|i: int| 0 <= i < s.len() ==> s[i] != sep,
    ensures
        split(s, sep) == seq![s],
{
    lemma_first_index_is(s, sep, s.len() as int);
}

/// A text splits into the pieces of what stands before one of its
/// separators and the pieces of what stands after it.
pub proof fn lemma_split_join(a: Seq<char>, b: Seq<char>, sep: char)
    ensures
        split(a + seq![sep] + b, sep) == split(a, sep) + split(b, sep),
    decreases a.len(),
{
    let s = a + seq![sep] + b;
    lemma_first_index(a, sep);
    let i = first_index(a, sep) as int;
    lemma_first_index_is(s, sep, i);
    if i < a.len() {
        let rest = a.skip(i + 1);
        assert(s.take(i) =~= a.take(i));
        assert(s.skip(i + 1) =~= rest + seq![sep] + b);
        lemma_split_join(rest, b, sep);
        assert(seq![a.take(i)] + (split(rest, sep) + split(b, sep)) =~= seq![a.take(i)] + split(
            rest,
            sep,
        ) + split(b, sep));
    } else {
        assert(s.take(i) =~= a);
        assert(s.skip(i + 1) =~= b);
    }
}

/// No piece holds a separator.
pub proof fn lemma_split_pieces(s: Seq<char>, sep: char)
    ensures
        split(s, sep).len() > 0,
        forall|i: int, k: int|
            0 <= i < split(s, sep).len() && 0 <= k < split(s, sep)[i].len() ==> #[trigger] split(
                s,
                sep,
            )[i][k] != sep,
    decreases s.len(),
{
    lemma_first_index(s, sep);
    let at = first_index(s, sep) as int;
    if at < s.len() {
        let rest = split(s.skip(at + 1), sep);
        lemma_split_pieces(s.skip(at + 1), sep);
        assert forall|i: int, k: int|
            0 <= i < split(s, sep).len() && 0 <= k < split(s, sep)[i].len() implies #[trigger] split(
            s,
            sep,
        )[i][k] != sep by {
            if i > 0 {
                assert(split(s, sep)[i] == rest[i - 1]);
            }
        }
    }
}

/// Each token holds a character, and none holds a blank.
pub proof fn lemma_tokens(line: Seq<char>)
    ensures
        forall|i: int|
            0 <= i < tokens(line).len() ==> (#[trigger] tokens(line)[i]).len() > 0 && unbroken(
                tokens(line)[i],
            ),
{
    let pieces = split(line, ' ');
    let kept = |piece: Seq<char>| piece.len() > 0;
    lemma_split_pieces(line, ' ');
    assert forall|i: int| 0 <= i < tokens(line).len() implies (#[trigger] tokens(line)[i]).len() > 0
        && unbroken(tokens(line)[i]) by {
        pieces.lemma_filter_pred(kept, i);
        pieces.lemma_filter_contains_rev(kept, tokens(line)[i]);
        let at = choose|at: int| 0 <= at < pieces.len() && pieces[at] == tokens(line)[i];
        assert forall|k: int| 0 <= k < pieces[at].len() implies pieces[at][k] != ' ' by {
            assert(split(line, ' ')[at][k] != ' ');
        }
    }
}

/// The tokens of two texts with a blank between them are the tokens of the
/// first and then those of the second.
pub proof fn lemma_tokens_join(a: Seq<char>, b: Seq<char>)
    ensures
        tokens(a + seq![' '] + b) == tokens(a) + tokens(b),
{
    lemma_split_join(a, b, ' ');
    Seq::filter_distributes_over_add(
        split(a, ' '),
        split(b, ' '),
        |piece: Seq<char>| piece.len() > 0,
    );
}

/// A word without a blank is its own and only token.
pub proof fn lemma_tokens_word(word: Seq<char>)
    requires
        word.len() > 0,
        unbroken(word),
    ensures
        tokens(word) == seq![word],
{
    lemma_first_index_is(word, ' ', word.len() as int);
    assert(seq![word] =~= Seq::<Seq<char>>::empty().push(word));
    Seq::<Seq<char>>::empty().lemma_filter_push(word, |piece: Seq<char>| piece.len() > 0);
    assert(Seq::<Seq<char>>::empty().filter(|piece: Seq<char>| piece.len() > 0)
        =~= Seq::<Seq<char>>::empty()) by {
        reveal_with_fuel(Seq::filter, 1);
    }
}

/// `first_match` is the least position at which `pat` stands, and `None`
/// exactly where it stands nowhere.
pub proof fn lemma_first_match(s: Seq<char>, pat: Seq<char>)
    ensures
        first_match(s, pat) matches Some(i) ==> occurs_at(s, pat, i as int) && forall|j: int|
            0 <= j < i ==> !occurs_at(s, pat, j),
        first_match(s, pat) is None ==> forall|j: int| !occurs_at(s, pat, j),
    decreases s.len(),
{
    if occurs_at(s, pat, 0) {
    } else if s.len() == 0 {
    } else {
        let t = s.drop_first();
        lemma_first_match(t, pat);
        assert forall|j: int| occurs_at(s, pat, j) <==> j > 0 && occurs_at(t, pat, j - 1) by {
            if j > 0 && j + pat.len() <= s.len() {
                assert(s.subrange(j, j + pat.len()) =~= t.subrange(j - 1, j - 1 + pat.len()));
            }
        }
    }
}

/// The least position at which `pat` stands is what `first_match` gives.
pub proof fn lemma_first_match_is(s: Seq<char>, pat: Seq<char>, i: int)
    requires
        occurs_at(s, pat, i),
        forall|j: int| 0 <= j < i ==> !occurs_at(s, pat, j),
    ensures
        first_match(s, pat) == Some(i as nat),
{
    lemma_first_match(s, pat);
}

/// A pattern stands in the second of two texts where it stands in both of
/// them joined, as far to the right as the first is long.
pub proof fn lemma_occurs_after(head: Seq<char>, tail: Seq<char>, pat: Seq<char>, i: int)
    requires
        0 <= i,
    ensures
        occurs_at(head + tail, pat, head.len() + i) == occurs_at(tail, pat, i),
{
    if i + pat.len() <= tail.len() {
        assert((head + tail).subrange(head.len() + i, head.len() + i + pat.len())
            =~= tail.subrange(i, i + pat.len()));
    }
}

/// `String::push` appends one character to the end of the string.
pub assume_specification[ String::push ](s: &mut String, c: char)
    ensures
        final(s)@ == old(s)@.push(c),
;

/// The characters of `s`, in order.
pub fn chars_of(s: &str) -> (v: Vec<char>)
    ensures
        v@ == s@,
{
    broadcast use vstd::string::group_string_axioms;

    let mut v: Vec<char> = Vec::new();
    for c in it: s.chars()
        invariant
            it.seq() == s@,
            v@ == s@.take(it.index()),
    {
        assert(s@.take(it.index() + 1) == s@.take(it.index()).push(c));
        v.push(c);
    }
    v
}

/// The string that holds the characters of `chars`.
pub fn string_of(chars: &[char]) -> (s: String)
    ensures
        s@ == chars@,
{
    let mut s = String::new();
    let mut i: usize = 0;
    while i < chars.len()
        invariant
            i <= chars@.len(),
            s@ == chars@.take(i as int),
        decreases chars@.len() - i,
    {
        assert(chars@.take(i + 1) == chars@.take(i as int).push(chars@[i as int]));
        s.push(chars[i]);
        i += 1;
    }
    s
}

/// Appends the characters of `piece` to `out`.
pub fn append_chars(out: &mut Vec<char>, piece: &[char])
    ensures
        final(out)@ == old(out)@ + piece@,
{
    let ghost before = out@;
    let mut i: usize = 0;
    assert(before + piece@.take(0) =~= before);
    while i < piece.len()
        invariant
            i <= piece@.len(),
            out@ == before + piece@.take(i as int),
        decreases piece@.len() - i,
    {
        out.push(piece[i]);
        assert(before + piece@.take(i + 1) =~= (before + piece@.take(i as int)).push(
            piece@[i as int],
        ));
        i += 1;
    }
    assert(piece@.take(piece@.len() as int) =~= piece@);
}

fn digit_of(d: u64) -> (c: char)
    requires
        d < 10,
    ensures
        c == digit_char(d as int),
{
    if d == 0 {
        '0'
    } else if d == 1 {
        '1'
    } else if d == 2 {
        '2'
    } else if d == 3 {
        '3'
    } else if d == 4 {
        '4'
    } else if d == 5 {
        '5'
    } else if d == 6 {
        '6'
    } else if d == 7 {
        '7'
    } else if d == 8 {
        '8'
    } else {
        '9'
    }
}

/// Appends `n` in decimal digits to `out`.
pub fn push_decimal(out: &mut String, n: u64)
    ensures
        final(out)@ == old(out)@ + decimal(n as nat),
    decreases n,
{
    if n >= 10 {
        push_decimal(out, n / 10);
    }
    out.push(digit_of(n % 10));
    assert(out@ =~= old(out)@ + decimal(n as nat));
}

/// Whether two texts hold the same characters.
pub fn same_chars(a: &[char], b: &[char]) -> (r: bool)
    ensures
        r == (a@ == b@),
{
    if a.len() != b.len() {
        return false;
    }
    let mut i: usize = 0;
    while i < a.len()
        invariant
            a@.len() == b@.len(),
            i <= a@.len(),
            a@.take(i as int) == b@.take(i as int),
        decreases a@.len() - i,
    {
        if a[i] != b[i] {
            return false;
        }
        assert(a@.take(i + 1) == a@.take(i as int).push(a@[i as int]));
        assert(b@.take(i + 1) == b@.take(i as int).push(b@[i as int]));
        i += 1;
    }
    assert(a@.take(a@.len() as int) == a@);
    assert(b@.take(b@.len() as int) == b@);
    true
}

/// The position of the first `c` in `s`, or `s.len()`.
pub fn find_char(s: &[char], c: char) -> (i: usize)
    ensures
        i == first_index(s@, c),
        i <= s@.len(),
        i < s@.len() ==> s@[i as int] == c,
{
    let mut i: usize = 0;
    while i < s.len() && s[i] != c
        invariant
            i <= s@.len(),
            forall|j: int| 0 <= j < i ==> s@[j] != c,
        decreases s@.len() - i,
    {
        i += 1;
    }
    proof {
        lemma_first_index_is(s@, c, i as int);
    }
    i
}

/// Whether `pat` stands in `s` at position `i`.
pub fn matches_at(s: &[char], pat: &[char], i: usize) -> (r: bool)
    ensures
        r == occurs_at(s@, pat@, i as int),
{
    if i > s.len() || pat.len() > s.len() - i {
        return false;
    }
    let piece = slice_subrange(s, i, i + pat.len());
    same_chars(piece, pat)
}

/// The least position at which `pat` stands in `s`.
pub fn find(s: &[char], pat: &[char]) -> (r: Option<usize>)
    ensures
        r matches Some(i) ==> first_match(s@, pat@) == Some(i as nat) && i + pat@.len() <= s@.len(),
        r is None ==> first_match(s@, pat@) is None,
{
    let mut i: usize = 0;
    loop
        invariant_except_break
            i <= s@.len(),
            forall|j: int| 0 <= j < i ==> !occurs_at(s@, pat@, j),
        ensures
            forall|j: int| 0 <= j <= s@.len() ==> !occurs_at(s@, pat@, j),
        decreases s@.len() - i,
    {
        if matches_at(s, pat, i) {
            proof {
                lemma_first_match_is(s@, pat@, i as int);
            }
            return Some(i);
        }
        if i == s.len() {
            break;
        }
        i += 1;
    }
    proof {
        lemma_first_match(s@, pat@);
    }
    None
}

/// The pieces of `s` between the occurrences of `sep`.
pub fn split_slices<'a>(s: &'a [char], sep: char) -> (pieces: Vec<&'a [char]>)
    ensures
        texts(pieces@) == split(s@, sep),
{
    let mut pieces: Vec<&'a [char]> = Vec::new();
    let mut rest: &'a [char] = s;
    loop
        invariant_except_break
            split(s@, sep) == texts(pieces@) + split(rest@, sep),
        ensures
            texts(pieces@) == split(s@, sep),
        decreases rest@.len(),
    {
        let ghost before = texts(pieces@);
        let i = find_char(rest, sep);
        let piece = slice_subrange(rest, 0, i);
        pieces.push(piece);
        assert(texts(pieces@) =~= before.push(piece@));
        if i < rest.len() {
            let next = slice_subrange(rest, i + 1, rest.len());
            assert(before.push(piece@) + split(next@, sep) =~= before + split(rest@, sep));
            rest = next;
        } else {
            assert(piece@ == rest@);
            assert(before.push(piece@) =~= before + split(rest@, sep));
            break;
        }
    }
    pieces
}

/// The non-empty pieces of `line` between single spaces.
pub fn token_slices<'a>(line: &'a [char]) -> (found: Vec<&'a [char]>)
    ensures
        texts(found@) == tokens(line@),
{
    let pieces = split_slices(line, ' ');
    let ghost all = texts(pieces@);
    let mut found: Vec<&'a [char]> = Vec::new();
    let mut i: usize = 0;
    assert(texts(found@) =~= nonempty(all.take(0))) by {
        reveal_with_fuel(Seq::filter, 1);
    }
    while i < pieces.len()
        invariant
            all == texts(pieces@),
            i <= pieces@.len(),
            texts(found@) == nonempty(all.take(i as int)),
        decreases pieces@.len() - i,
    {
        let ghost before = texts(found@);
        let piece = pieces[i];
        proof {
            assert(all.take(i + 1) =~= all.take(i as int).push(piece@));
            all.take(i as int).lemma_filter_push(piece@, |piece: Seq<char>| piece.len() > 0);
        }
        if piece.len() > 0 {
            found.push(piece);
            assert(texts(found@) =~= before.push(piece@));
        }
        i += 1;
    }
    assert(all.take(pieces@.len() as int) =~= all);
    found
}

} // verus!
