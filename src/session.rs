//! What the interactive loop does with one line it has read.
use vstd::prelude::*;
use crate::lexer::{space_of, tokenize, tokens_of, texts};

verus! {

/// `s` without its leading whitespace.
pub open spec fn trim_start(s: Seq<char>) -> Seq<char>
    decreases s.len(),
{
    if s.len() > 0 && space_of(s[0]) {
        trim_start(s.drop_first())
    } else {
        s
    }
}

/// `s` without its trailing whitespace.
pub open spec fn trim_end(s: Seq<char>) -> Seq<char>
    decreases s.len(),
{
    if s.len() > 0 && space_of(s.last()) {
        trim_end(s.drop_last())
    } else {
        s
    }
}

/// `s` without leading and trailing whitespace.
pub open spec fn trimmed(s: Seq<char>) -> Seq<char> {
    trim_end(trim_start(s))
}

/// Relies on `str::trim`: removes leading and trailing characters with the
/// Unicode `White_Space` property, the property `char::is_whitespace` tests.
#[verifier::external_body]
fn trim(s: &str) -> (r: &str)
    ensures
        r@ == trimmed(s@),
{
    s.trim()
}

/// The word that ends a session.
pub open spec fn exit_word() -> Seq<char> {
    seq!['e', 'x', 'i', 't']
}

/// What to do with one input line.
pub enum Command {
    /// End the session.
    Exit,
    /// Evaluate these tokens.
    Evaluate(Vec<String>),
}

fn is_exit_word(t: &str) -> (r: bool)
    ensures
        r == (t@ == exit_word()),
{
    if t.unicode_len() != 4 {
        return false;
    }
    let r = t.get_char(0) == 'e' && t.get_char(1) == 'x' && t.get_char(2) == 'i' && t.get_char(3)
        == 't';
    assert(r ==> t@ =~= exit_word());
    r
}

/// Decides what a line read in the session asks for: after trimming,
/// exactly `exit` ends the session; anything else is tokenized.
pub fn command(line: &str) -> (c: Command)
    ensures
        c is Exit <==> trimmed(line@) == exit_word(),
        c matches Command::Evaluate(toks) ==> texts(toks@) == tokens_of(trimmed(line@)),
{
    let input = trim(line);
    if is_exit_word(input) {
        Command::Exit
    } else {
        Command::Evaluate(tokenize(input))
    }
}

proof fn lemma_trim_start_spaces(w: Seq<char>, rest: Seq<char>)
    requires
        forall|i: int| 0 <= i < w.len() ==> space_of(#[trigger] w[i]),
        rest.len() > 0,
        !space_of(rest[0]),
    ensures
        trim_start(w + rest) == rest,
    decreases w.len(),
{
    if w.len() == 0 {
        assert(w + rest =~= rest);
    } else {
        assert((w + rest).drop_first() =~= w.drop_first() + rest);
        lemma_trim_start_spaces(w.drop_first(), rest);
    }
}

proof fn lemma_trim_end_spaces(rest: Seq<char>, w: Seq<char>)
    requires
        forall|i: int| 0 <= i < w.len() ==> space_of(#[trigger] w[i]),
        rest.len() > 0,
        !space_of(rest.last()),
    ensures
        trim_end(rest + w) == rest,
    decreases w.len(),
{
    if w.len() == 0 {
        assert(rest + w =~= rest);
    } else {
        assert((rest + w).drop_last() =~= rest + w.drop_last());
        lemma_trim_end_spaces(rest, w.drop_last());
    }
}

/// `exit` surrounded by any whitespace ends the session.
pub proof fn lemma_exit_with_spaces(before: Seq<char>, after: Seq<char>)
    requires
        forall|i: int| 0 <= i < before.len() ==> space_of(#[trigger] before[i]),
        forall|i: int| 0 <= i < after.len() ==> space_of(#[trigger] after[i]),
    ensures
        trimmed(before + exit_word() + after) == exit_word(),
{
    let e = exit_word();
    assert(before + e + after =~= before + (e + after));
    lemma_trim_start_spaces(before, e + after);
    lemma_trim_end_spaces(e, after);
}

} // verus!
