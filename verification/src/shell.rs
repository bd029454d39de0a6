//! Quoting of a path for a line of shell.

use vstd::prelude::*;

verus! {

/// The character forces quoting: a double quote, a space, a tab or a line
/// feed.
pub open spec fn is_special(c: char) -> bool {
    c == '"' || c == ' ' || c == '\t' || c == '\n'
}

/// The text with a backslash put before each double quote.
pub open spec fn escaped(text: Seq<char>) -> Seq<char>
    decreases text.len(),
{
    if text.len() == 0 {
        Seq::empty()
    } else if text.last() == '"' {
        escaped(text.drop_last()).push('\\').push('"')
    } else {
        escaped(text.drop_last()).push(text.last())
    }
}

/// The text as it is where no character forces quoting, else escaped and
/// set between double quotes.
pub open spec fn shell_quoted(text: Seq<char>) -> Seq<char> {
    if exists|i: int| 0 <= i < text.len() && is_special(#[trigger] text[i]) {
        seq!['"'] + escaped(text) + seq!['"']
    } else {
        text
    }
}

/// Quotes a path for use as one word of a shell command.
pub fn shell_quote(path: &str) -> (quoted: String)
    ensures
        quoted@ == shell_quoted(path@),
{
    let mut special = false;
    for c in it: path.chars()
        invariant
            it.seq() == path@,
            special <==> exists|i: int| 0 <= i < it.index() && is_special(#[trigger] path@[i]),
    {
        if c == '"' || c == ' ' || c == '\t' || c == '\n' {
            special = true;
        }
    }
    if !special {
        return path.to_owned();
    }
    let mut quoted = String::new();
    quoted.push('"');
    for c in it: path.chars()
        invariant
            it.seq() == path@,
            quoted@ == seq!['"'] + escaped(path@.take(it.index() as int)),
    {
        proof {
            assert(path@.take(it.index() + 1).drop_last() =~= path@.take(it.index() as int));
        }
        if c == '"' {
            quoted.push('\\');
        }
        quoted.push(c);
    }
    quoted.push('"');
    proof {
        assert(path@.take(path@.len() as int) =~= path@);
    }
    quoted
}

} // verus!
