//! Splitting an input line into tokens.
use vstd::prelude::*;

verus! {

broadcast use vstd::string::group_string_axioms;

/// The characters with the Unicode `White_Space` property: U+0009 to U+000D,
/// the space, U+0085, U+00A0, U+1680, U+2000 to U+200A, U+2028, U+2029,
/// U+202F, U+205F and U+3000.
pub open spec fn space_of(c: char) -> bool {
    let u = c as u32;
    (0x09 <= u && u <= 0x0d) || u == 0x20 || u == 0x85 || u == 0xa0 || u == 0x1680 || (0x2000
        <= u && u <= 0x200a) || u == 0x2028 || u == 0x2029 || u == 0x202f || u == 0x205f || u
        == 0x3000
}

/// Relies on `char::is_whitespace`: true exactly of the characters with the
/// Unicode `White_Space` property.
#[verifier::external_body]
fn is_space(c: char) -> (r: bool)
    ensures
        r == space_of(c),
{
    c.is_whitespace()
}

/// Relies on `String::push`: appends one character at the end.
#[verifier::external_body]
fn push_char(s: &mut String, c: char)
    ensures
        final(s)@ == old(s)@.push(c),
{
    s.push(c)
}

/// The characters that always stand as a token of their own.
pub open spec fn is_symbol(c: char) -> bool {
    c == '+' || c == '-' || c == '*' || c == '/' || c == '=' || c == '(' || c == ')'
}

/// `done` with the pending run appended, unless the run is empty.
pub open spec fn flush(done: Seq<Seq<char>>, run: Seq<char>) -> Seq<Seq<char>> {
    if run.len() == 0 {
        done
    } else {
        done.push(run)
    }
}

/// The tokens completed after reading `s`, and the run of ordinary
/// characters still being gathered.
pub open spec fn scan(s: Seq<char>) -> (Seq<Seq<char>>, Seq<char>)
    decreases s.len(),
{
    if s.len() == 0 {
        (seq![], seq![])
    } else {
        let (done, run) = scan(s.drop_last());
        let c = s.last();
        if space_of(c) {
            (done, run)
        } else if is_symbol(c) {
            (flush(done, run).push(seq![c]), seq![])
        } else {
            (done, run.push(c))
        }
    }
}

/// The tokens of `s`: whitespace dropped, each symbol alone, and every
/// maximal stretch of other characters (whitespace inside it ignored) as one token.
pub open spec fn tokens_of(s: Seq<char>) -> Seq<Seq<char>> {
    flush(scan(s).0, scan(s).1)
}

/// The character views of a vector of strings.
pub open spec fn texts(v: Seq<String>) -> Seq<Seq<char>> {
    v.map_values(|t: String| t@)
}

fn is_symbol_char(c: char) -> (r: bool)
    ensures
        r == is_symbol(c),
{
    c == '+' || c == '-' || c == '*' || c == '/' || c == '=' || c == '(' || c == ')'
}

/// Splits `input` into tokens, left to right.
pub fn tokenize(input: &str) -> (r: Vec<String>)
    ensures
        texts(r@) == tokens_of(input@),
{
    let mut tokens: Vec<String> = Vec::new();
    let mut current = String::new();
    for c in it: input.chars()
        invariant
            it.seq() == input@,
            (texts(tokens@), current@) == scan(input@.take(it.index())),
    {
        let ghost read = input@.take(it.index());
        assert(input@.take(it.index() + 1).drop_last() == read);
        if is_space(c) {
        } else if is_symbol_char(c) {
            if !current.as_str().is_empty() {
                tokens.push(current);
                current = String::new();
            }
            let mut sym = String::new();
            push_char(&mut sym, c);
            tokens.push(sym);
        } else {
            push_char(&mut current, c);
        }
        assert(texts(tokens@) =~= scan(input@.take(it.index() + 1)).0);
    }
    assert(input@.take(input@.len() as int) == input@);
    if !current.as_str().is_empty() {
        tokens.push(current);
    }
    assert(texts(tokens@) =~= tokens_of(input@));
    tokens
}

/// `s` with every whitespace character removed.
pub open spec fn without_space(s: Seq<char>) -> Seq<char> {
    s.filter(|c: char| !space_of(c))
}

proof fn lemma_scan_without_space(s: Seq<char>)
    ensures
        scan(s) == scan(without_space(s)),
    decreases s.len(),
{
    if s.len() > 0 {
        let rest = s.drop_last();
        let c = s.last();
        lemma_scan_without_space(rest);
        assert(rest.push(c) =~= s);
        rest.lemma_filter_push(c, |c: char| !space_of(c));
        if !space_of(c) {
            assert(without_space(rest).push(c).drop_last() =~= without_space(rest));
        }
    }
}

/// Whitespace is ignored: a string has the same tokens as the string with
/// its whitespace removed.
pub proof fn lemma_whitespace_ignored(s: Seq<char>)
    ensures
        tokens_of(s) == tokens_of(without_space(s)),
{
    lemma_scan_without_space(s);
}

/// Two strings that differ only in whitespace have the same tokens.
pub proof fn lemma_spacing_irrelevant(a: Seq<char>, b: Seq<char>)
    requires
        without_space(a) == without_space(b),
    ensures
        tokens_of(a) == tokens_of(b),
{
    lemma_whitespace_ignored(a);
    lemma_whitespace_ignored(b);
}

/// Tokenizing depends on the text alone: the same text gives the same tokens.
pub proof fn lemma_tokenize_pure(a: Seq<char>, b: Seq<char>)
    requires
        a == b,
    ensures
        tokens_of(a) == tokens_of(b),
{
}

} // verus!
