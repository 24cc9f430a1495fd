//! The mathematical model of token classification.
//!
//! Every contract in this crate is stated over the spec functions here: a
//! token is a `Seq<char>`, the accumulated results are a [`Buckets`] record,
//! and one pass over a token sequence is [`run_tokens`].

use vstd::prelude::*;

use crate::ArgError;

verus! {

/// The four result collections of one classification pass.
#[verifier::ext_equal]
pub ghost struct Buckets {
    /// Single-character short-flag entries, insertion order, no duplicates.
    pub short_flags: Seq<Seq<char>>,
    /// Long-flag names, insertion order, duplicates allowed.
    pub long_flags: Seq<Seq<char>>,
    /// Variable name to value, a later token with the same name overwrites.
    pub variables: Map<Seq<char>, Seq<char>>,
    /// Positional tokens, verbatim, in processing order.
    pub positional: Seq<Seq<char>>,
}

/// The state before any token has been classified.
pub open spec fn empty_buckets() -> Buckets {
    Buckets {
        short_flags: Seq::empty(),
        long_flags: Seq::empty(),
        variables: Map::empty(),
        positional: Seq::empty(),
    }
}

/// The token starts with `-`.
pub open spec fn starts_dash(t: Seq<char>) -> bool {
    t.len() >= 1 && t[0] == '-'
}

/// The token starts with `--`.
pub open spec fn starts_ddash(t: Seq<char>) -> bool {
    t.len() >= 2 && t[0] == '-' && t[1] == '-'
}

/// The first index at or after `from` holding `c`, or the length if none does.
pub open spec fn first_from(t: Seq<char>, c: char, from: int) -> int
    decreases t.len() - from,
{
    if from >= t.len() {
        t.len() as int
    } else if t[from] == c {
        from
    } else {
        first_from(t, c, from + 1)
    }
}

/// What [`first_from`] returns: an index in `[from, t.len()]`, no hit before
/// it, and a hit at it unless it is the length.
pub proof fn lemma_first_from(t: Seq<char>, c: char, from: int)
    requires
        0 <= from <= t.len(),
    ensures
        from <= first_from(t, c, from) <= t.len(),
        forall|j: int| from <= j < first_from(t, c, from) ==> t[j] != c,
        first_from(t, c, from) < t.len() ==> t[first_from(t, c, from)] == c,
    decreases t.len() - from,
{
    if from < t.len() && t[from] != c {
        lemma_first_from(t, c, from + 1);
    }
}

/// The token contains an `=`.
pub open spec fn has_eq(t: Seq<char>) -> bool {
    first_from(t, '=', 0) < t.len()
}

/// Starts with `-` but not `--`: dispatched to the short-flag handler.
pub open spec fn is_short_flag_token(t: Seq<char>) -> bool {
    starts_dash(t) && !starts_ddash(t)
}

/// Starts with `--` and contains `=`: dispatched to the variable handler.
pub open spec fn is_variable_token(t: Seq<char>) -> bool {
    starts_ddash(t) && has_eq(t)
}

/// Starts with `--` and has no `=`: dispatched to the long-flag handler.
pub open spec fn is_long_flag_token(t: Seq<char>) -> bool {
    starts_ddash(t) && !has_eq(t)
}

/// Does not start with `-`: kept verbatim as a positional argument.
pub open spec fn is_positional_token(t: Seq<char>) -> bool {
    !starts_dash(t)
}

/// The characters of a short-flag token after the leading `-`, up to the next
/// `-` (if any): the flag characters the handler splits off.
pub open spec fn short_content(t: Seq<char>) -> Seq<char>
    recommends
        starts_dash(t),
{
    t.subrange(1, first_from(t, '-', 1))
}

/// The text with every occurrence of `--` removed, scanning left to right
/// over non-overlapping matches.
pub open spec fn strip_ddash(t: Seq<char>) -> Seq<char>
    decreases t.len(),
{
    if t.len() < 2 {
        t
    } else if t[0] == '-' && t[1] == '-' {
        strip_ddash(t.skip(2))
    } else {
        seq![t[0]] + strip_ddash(t.skip(1))
    }
}

/// A variable token's name: the text left of the first `=`, with every `--`
/// stripped.
pub open spec fn variable_name(t: Seq<char>) -> Seq<char>
    recommends
        has_eq(t),
{
    strip_ddash(t.subrange(0, first_from(t, '=', 0)))
}

/// A variable token's value: everything after the first `=`, kept verbatim
/// (further `=` characters included).
pub open spec fn variable_value(t: Seq<char>) -> Seq<char>
    recommends
        has_eq(t),
{
    t.subrange(first_from(t, '=', 0) + 1, t.len() as int)
}

/// Well-formedness of the short-flag set: every entry is a single character
/// and no two entries are equal.
pub open spec fn shorts_wf(flags: Seq<Seq<char>>) -> bool {
    &&& forall|i: int| 0 <= i < flags.len() ==> (#[trigger] flags[i]).len() == 1
    &&& forall|i: int, j: int| 0 <= i < j < flags.len() ==> flags[i] != flags[j]
}

/// One short-flag entry added to the set: appended unless already present.
pub open spec fn add_one_short(flags: Seq<Seq<char>>, c: char) -> Seq<Seq<char>> {
    if flags.contains(seq![c]) {
        flags
    } else {
        flags.push(seq![c])
    }
}

/// The short-flag set after adding each character of `content` in order,
/// duplicates suppressed.
pub open spec fn add_shorts(flags: Seq<Seq<char>>, content: Seq<char>) -> Seq<Seq<char>>
    decreases content.len(),
{
    if content.len() == 0 {
        flags
    } else {
        add_one_short(add_shorts(flags, content.drop_last()), content.last())
    }
}

/// Classification of a single token: either the buckets after the token's
/// entries are recorded, or the error for a malformed token.
pub open spec fn step_token(b: Buckets, t: Seq<char>) -> Result<Buckets, ArgError> {
    if is_short_flag_token(t) {
        if short_content(t).len() == 0 {
            Err(ArgError::MissingFlag)
        } else {
            Ok(
                (Buckets {
                    short_flags: add_shorts(b.short_flags, short_content(t)),
                    ..b
                }),
            )
        }
    } else if is_variable_token(t) {
        if variable_name(t).len() == 0 {
            Err(ArgError::MissingVariable)
        } else if variable_value(t).len() == 0 {
            Err(ArgError::MissingValue)
        } else {
            Ok(
                (Buckets {
                    variables: b.variables.insert(variable_name(t), variable_value(t)),
                    ..b
                }),
            )
        }
    } else if is_long_flag_token(t) {
        if strip_ddash(t).len() == 0 {
            Err(ArgError::MissingFlagOrVariable)
        } else {
            Ok(
                (Buckets {
                    long_flags: b.long_flags.push(strip_ddash(t)),
                    ..b
                }),
            )
        }
    } else {
        Ok(
            (Buckets {
                positional: b.positional.push(t),
                ..b
            }),
        )
    }
}

/// One classification pass, front to back: the buckets after every token
/// classified cleanly, or the error of the first malformed token.
pub open spec fn run_tokens(b: Buckets, toks: Seq<Seq<char>>) -> Result<Buckets, ArgError>
    decreases toks.len(),
{
    if toks.len() == 0 {
        Ok(b)
    } else {
        match step_token(b, toks[0]) {
            Ok(b2) => run_tokens(b2, toks.skip(1)),
            Err(e) => Err(e),
        }
    }
}

/// The views of a sequence of strings.
pub open spec fn seq_views(v: Seq<String>) -> Seq<Seq<char>> {
    v.map_values(|s: String| s@)
}

/// The diagnostic text owed for each error kind.
pub open spec fn error_text(e: ArgError) -> Seq<char> {
    match e {
        ArgError::MissingValue => "Missing value after '=' for defined variable"@,
        ArgError::MissingVariable => "Missing varibale name after '--' and before '=' for defined variable"@,
        ArgError::MissingFlagOrVariable => "Missing flag or variable name after '--'"@,
        ArgError::MissingFlag => "Short flag indicator '-' provided but no argument supplied, please supply flag"@,
    }
}

} // verus!
