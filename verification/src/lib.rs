//! A lexical classifier for command-line tokens.
//!
//! A raw sequence of string tokens is partitioned into four buckets: short
//! flags (`-ab`), long flags (`--verbose`), variables (`--key=value`) and
//! positional arguments (anything not starting with `-`). Classification is
//! fail-fast: the first malformed token stops the pass and is reported as an
//! [`ArgError`].
//!
//! Tokens are processed front to back, so all four buckets keep the original
//! input order.

use vstd::prelude::*;

pub mod args;
pub mod laws;
pub mod model;
pub mod vars;

use crate::model::{
    Buckets, add_one_short, add_shorts, empty_buckets, error_text, first_from, has_eq,
    is_short_flag_token, lemma_first_from, run_tokens, seq_views, short_content, shorts_wf,
    step_token, strip_ddash, variable_name, variable_value,
};
use crate::vars::VariableMap;

verus! {

/// The four ways a token can be malformed, each tied to exactly one input
/// shape (see the per-handler contracts on [`ArgParser`]).
#[derive(Debug, PartialEq, Eq, Structural)]
pub enum ArgError {
    /// A variable token's name portion (before `=`) is empty.
    MissingVariable,
    /// A variable token's value portion (after the first `=`) is empty.
    MissingValue,
    /// A long-flag token reduces to an empty name and has no `=`.
    MissingFlagOrVariable,
    /// A short-flag token is exactly `-` with nothing following.
    MissingFlag,
}

/// The diagnostic line for each error kind, as a caller would print it.
pub fn error_message(e: &ArgError) -> (m: &'static str)
    ensures
        m@ == error_text(*e),
{
    match e {
        ArgError::MissingValue => "Missing value after '=' for defined variable",
        ArgError::MissingVariable => "Missing varibale name after '--' and before '=' for defined variable",
        ArgError::MissingFlagOrVariable => "Missing flag or variable name after '--'",
        ArgError::MissingFlag => "Short flag indicator '-' provided but no argument supplied, please supply flag",
    }
}

/// Accumulates one classification pass: the tokens still to classify and the
/// four result collections.
pub struct ArgParser {
    /// The tokens to classify, consumed by [`ArgParser::parse`].
    pub args: Vec<String>,
    /// Single-character short-flag entries, insertion order, no duplicates.
    pub short_flags: Vec<String>,
    /// Long-flag names, insertion order, duplicates allowed.
    pub long_flags: Vec<String>,
    /// Variable name to value; a later token with the same name overwrites.
    pub variables: VariableMap,
    /// Positional tokens, verbatim, in processing order.
    pub positional: Vec<String>,
}

impl ArgParser {
    /// The abstract value of the four result collections.
    pub open spec fn buckets(&self) -> Buckets {
        Buckets {
            short_flags: seq_views(self.short_flags@),
            long_flags: seq_views(self.long_flags@),
            variables: self.variables@,
            positional: seq_views(self.positional@),
        }
    }

    /// Well-formedness: every short-flag entry is a single character, no two
    /// short-flag entries are equal, and the variable map's names are unique.
    pub open spec fn wf(&self) -> bool {
        shorts_wf(self.buckets().short_flags) && self.variables.wf()
    }

    /// An empty parser: no tokens and all four collections empty.
    pub fn new() -> (p: ArgParser)
        ensures
            p.wf(),
            p.args@.len() == 0,
            p.buckets() == empty_buckets(),
    {
        let p = ArgParser {
            args: Vec::new(),
            short_flags: Vec::new(),
            long_flags: Vec::new(),
            variables: VariableMap::new(),
            positional: Vec::new(),
        };
        proof {
            assert(p.buckets() =~~= empty_buckets());
        }
        p
    }

    /// Stores the token sequence to classify; the caller collects it (for a
    /// command line, from the process's invocation arguments).
    pub fn collect_args(self, args: Vec<String>) -> (p: ArgParser)
        ensures
            p.args@ == args@,
            p.buckets() == self.buckets(),
            p.wf() == self.wf(),
    {
        ArgParser {
            args,
            short_flags: self.short_flags,
            long_flags: self.long_flags,
            variables: self.variables,
            positional: self.positional,
        }
    }

    /// Classifies a short-flag token (`-abc`): rejects a bare `-` with
    /// `MissingFlag`, otherwise adds each character after the leading `-` (up
    /// to the next `-`, if any) as its own entry, skipping duplicates.
    pub fn process_short_flag(&mut self, arg: String) -> (r: Result<(), ArgError>)
        requires
            old(self).wf(),
            is_short_flag_token(arg@),
        ensures
            final(self).wf(),
            final(self).args@ == old(self).args@,
            r == (if short_content(arg@).len() == 0 {
                Err::<(), ArgError>(ArgError::MissingFlag)
            } else {
                Ok::<(), ArgError>(())
            }),
            r is Err ==> *final(self) == *old(self),
            r is Ok ==> final(self).buckets() == (Buckets {
                short_flags: add_shorts(old(self).buckets().short_flags, short_content(arg@)),
                ..old(self).buckets()
            }),
    {
        let s = arg.as_str();
        let end = find_from(s, '-', 1);
        proof {
            lemma_first_from(arg@, '-', 1);
        }
        if end == 1 {
            Err(ArgError::MissingFlag)
        } else {
            let mut i: usize = 1;
            proof {
                assert(arg@.subrange(1, 1) =~= Seq::<char>::empty());
            }
            while i < end
                invariant
                    old(self).wf(),
                    self.wf(),
                    1 <= i <= end,
                    end == first_from(arg@, '-', 1),
                    end <= arg@.len(),
                    s@ == arg@,
                    seq_views(self.short_flags@) == add_shorts(
                        seq_views(old(self).short_flags@),
                        arg@.subrange(1, i as int),
                    ),
                    self.args == old(self).args,
                    self.long_flags == old(self).long_flags,
                    self.variables == old(self).variables,
                    self.positional == old(self).positional,
                decreases end - i,
            {
                let piece = s.substring_char(i, i + 1).to_owned();
                let ghost c_entry = seq![arg@[i as int]];
                let ghost before = seq_views(self.short_flags@);
                proof {
                    assert(piece@ =~= c_entry);
                    assert(arg@.subrange(1, i as int + 1).drop_last() =~= arg@.subrange(
                        1,
                        i as int,
                    ));
                    assert(arg@.subrange(1, i as int + 1).last() == arg@[i as int]);
                }
                if !contains_string(&self.short_flags, &piece) {
                    self.short_flags.push(piece);
                    proof {
                        assert(seq_views(self.short_flags@) =~= before.push(c_entry));
                        assert forall|a: int, b: int|
                            0 <= a < b < before.push(c_entry).len() implies before.push(
                            c_entry,
                        )[a] != before.push(c_entry)[b] by {
                            if b == before.len() {
                                assert(before[a] != c_entry);
                            }
                        }
                        assert(shorts_wf(seq_views(self.short_flags@)));
                    }
                }
                proof {
                    assert(seq_views(self.short_flags@) == add_one_short(
                        before,
                        arg@[i as int],
                    ));
                    assert(seq_views(self.short_flags@) == add_shorts(
                        seq_views(old(self).short_flags@),
                        arg@.subrange(1, i as int + 1),
                    ));
                }
                i = i + 1;
            }
            proof {
                assert(arg@.subrange(1, end as int) == short_content(arg@));
                assert(self.buckets() =~~= (Buckets {
                    short_flags: add_shorts(old(self).buckets().short_flags, short_content(arg@)),
                    ..old(self).buckets()
                }));
            }
            Ok(())
        }
    }

    /// Classifies a long-flag token (`--verbose`): strips every `--`, rejects
    /// an empty name with `MissingFlagOrVariable`, otherwise appends the name
    /// to the long-flag list (duplicates allowed).
    pub fn process_long_flag(&mut self, arg: String) -> (r: Result<(), ArgError>)
        requires
            old(self).wf(),
        ensures
            final(self).wf(),
            final(self).args@ == old(self).args@,
            r == (if strip_ddash(arg@).len() == 0 {
                Err::<(), ArgError>(ArgError::MissingFlagOrVariable)
            } else {
                Ok::<(), ArgError>(())
            }),
            r is Err ==> *final(self) == *old(self),
            r is Ok ==> final(self).buckets() == (Buckets {
                long_flags: old(self).buckets().long_flags.push(strip_ddash(arg@)),
                ..old(self).buckets()
            }),
    {
        let key = strip_double_dash(arg.as_str());
        if key.as_str().unicode_len() == 0 {
            Err(ArgError::MissingFlagOrVariable)
        } else {
            self.long_flags.push(key);
            proof {
                assert(seq_views(self.long_flags@) =~= seq_views(old(self).long_flags@).push(
                    strip_ddash(arg@),
                ));
                assert(self.buckets() =~~= (Buckets {
                    long_flags: old(self).buckets().long_flags.push(strip_ddash(arg@)),
                    ..old(self).buckets()
                }));
            }
            Ok(())
        }
    }

    /// Classifies a variable token (`--key=value`): the name is the text left
    /// of the first `=` with every `--` stripped, the value is everything
    /// after that `=`, verbatim. An empty name fails with `MissingVariable`,
    /// an empty value with `MissingValue`; otherwise the pair is inserted,
    /// overwriting any earlier value for the same name.
    pub fn process_variable(&mut self, arg: String) -> (r: Result<(), ArgError>)
        requires
            old(self).wf(),
            has_eq(arg@),
        ensures
            final(self).wf(),
            final(self).args@ == old(self).args@,
            r == (if variable_name(arg@).len() == 0 {
                Err::<(), ArgError>(ArgError::MissingVariable)
            } else if variable_value(arg@).len() == 0 {
                Err::<(), ArgError>(ArgError::MissingValue)
            } else {
                Ok::<(), ArgError>(())
            }),
            r is Err ==> *final(self) == *old(self),
            r is Ok ==> final(self).buckets() == (Buckets {
                variables: old(self).buckets().variables.insert(
                    variable_name(arg@),
                    variable_value(arg@),
                ),
                ..old(self).buckets()
            }),
    {
        let s = arg.as_str();
        let n = s.unicode_len();
        let eq_pos = find_from(s, '=', 0);
        proof {
            lemma_first_from(arg@, '=', 0);
        }
        let left = s.substring_char(0, eq_pos);
        let key = strip_double_dash(left);
        let value = s.substring_char(eq_pos + 1, n).to_owned();
        proof {
            assert(key@ == variable_name(arg@));
            assert(value@ == variable_value(arg@));
        }
        if key.as_str().unicode_len() == 0 {
            Err(ArgError::MissingVariable)
        } else if value.as_str().unicode_len() == 0 {
            Err(ArgError::MissingValue)
        } else {
            self.variables.insert(key, value);
            proof {
                assert(self.buckets() =~~= (Buckets {
                    variables: old(self).buckets().variables.insert(
                        variable_name(arg@),
                        variable_value(arg@),
                    ),
                    ..old(self).buckets()
                }));
            }
            Ok(())
        }
    }

    /// Classifies a positional token: appended verbatim to the positional
    /// list. This operation cannot fail.
    pub fn process_positional_argument(&mut self, arg: String) -> (r: Result<(), ArgError>)
        requires
            old(self).wf(),
        ensures
            final(self).wf(),
            final(self).args@ == old(self).args@,
            r == Ok::<(), ArgError>(()),
            final(self).buckets() == (Buckets {
                positional: old(self).buckets().positional.push(arg@),
                ..old(self).buckets()
            }),
    {
        let ghost v = arg@;
        self.positional.push(arg);
        proof {
            assert(seq_views(self.positional@) =~= seq_views(old(self).positional@).push(v));
            assert(self.buckets() =~~= (Buckets {
                positional: old(self).buckets().positional.push(v),
                ..old(self).buckets()
            }));
        }
        Ok(())
    }

    /// One full classification pass over the stored tokens, front to back,
    /// stopping at the first malformed token. On success, the parser comes
    /// back with its four buckets holding exactly what [`run_tokens`] says
    /// and its token queue consumed; on failure, the error of the first
    /// malformed token, with nothing recorded for that token.
    pub fn parse(self) -> (r: Result<ArgParser, ArgError>)
        requires
            self.wf(),
        ensures
            match r {
                Ok(p) => {
                    &&& run_tokens(self.buckets(), seq_views(self.args@)) == Ok::<
                        Buckets,
                        ArgError,
                    >(p.buckets())
                    &&& p.wf()
                    &&& p.args@.len() == 0
                },
                Err(e) => run_tokens(self.buckets(), seq_views(self.args@)) == Err::<
                    Buckets,
                    ArgError,
                >(e),
            },
    {
        let ghost toks = seq_views(self.args@);
        let mut p = self;
        let n = p.args.len();
        let mut i: usize = 0;
        proof {
            assert(toks.skip(0) =~= toks);
        }
        while i < n
            invariant
                p.wf(),
                i <= n,
                n == p.args@.len(),
                p.args@ == self.args@,
                toks == seq_views(self.args@),
                run_tokens(self.buckets(), toks) == run_tokens(p.buckets(), toks.skip(i as int)),
            decreases n - i,
        {
            let t = p.args[i].clone();
            proof {
                assert(t@ == toks[i as int]);
                assert(toks.skip(i as int)[0] == toks[i as int]);
                assert(toks.skip(i as int).skip(1) =~= toks.skip(i as int + 1));
            }
            let ghost b_pre = p.buckets();
            let n_t = t.as_str().unicode_len();
            let dash0 = n_t >= 1 && t.as_str().get_char(0) == '-';
            let dash1 = n_t >= 2 && t.as_str().get_char(1) == '-';
            let res = if dash0 && !dash1 {
                p.process_short_flag(t)
            } else if dash0 && dash1 {
                let eq_pos = find_from(t.as_str(), '=', 0);
                if eq_pos < n_t {
                    p.process_variable(t)
                } else {
                    p.process_long_flag(t)
                }
            } else {
                p.process_positional_argument(t)
            };
            match res {
                Ok(_) => {
                    proof {
                        assert(step_token(b_pre, toks[i as int]) == Ok::<Buckets, ArgError>(
                            p.buckets(),
                        ));
                        assert(run_tokens(b_pre, toks.skip(i as int)) == run_tokens(
                            p.buckets(),
                            toks.skip(i as int + 1),
                        ));
                    }
                },
                Err(e) => {
                    proof {
                        assert(step_token(b_pre, toks[i as int]) == Err::<Buckets, ArgError>(e));
                        assert(run_tokens(b_pre, toks.skip(i as int)) == Err::<Buckets, ArgError>(
                            e,
                        ));
                    }
                    return Err(e);
                },
            }
            i = i + 1;
        }
        proof {
            assert(toks.skip(n as int) =~= Seq::<Seq<char>>::empty());
        }
        let done = ArgParser {
            args: Vec::new(),
            short_flags: p.short_flags,
            long_flags: p.long_flags,
            variables: p.variables,
            positional: p.positional,
        };
        proof {
            assert(done.buckets() =~~= p.buckets());
        }
        Ok(done)
    }
}

/// The first index at or after `from` holding `c`, or the length if none does.
fn find_from(s: &str, c: char, from: usize) -> (idx: usize)
    ensures
        idx == first_from(s@, c, from as int),
        idx <= s@.len(),
{
    let n = s.unicode_len();
    let mut i: usize = from;
    if i > n {
        return n;
    }
    while i < n
        invariant
            n == s@.len(),
            from <= i <= n,
            first_from(s@, c, from as int) == first_from(s@, c, i as int),
        decreases n - i,
    {
        if s.get_char(i) == c {
            return i;
        }
        i = i + 1;
    }
    n
}

/// The text with every occurrence of `--` removed, scanning left to right.
fn strip_double_dash(s: &str) -> (r: String)
    ensures
        r@ == strip_ddash(s@),
{
    let n = s.unicode_len();
    let mut r = String::new();
    let mut i: usize = 0;
    proof {
        assert(s@.skip(0) =~= s@);
        assert(r@ + strip_ddash(s@) =~= strip_ddash(s@));
    }
    while i < n
        invariant
            n == s@.len(),
            i <= n,
            strip_ddash(s@) == r@ + strip_ddash(s@.skip(i as int)),
        decreases n - i,
    {
        if s.get_char(i) == '-' && i + 1 < n && s.get_char(i + 1) == '-' {
            proof {
                assert(s@.skip(i as int).skip(2) =~= s@.skip(i as int + 2));
            }
            i = i + 2;
        } else {
            let piece = s.substring_char(i, i + 1);
            proof {
                let rest = s@.skip(i as int);
                if rest.len() >= 2 {
                    assert(rest[0] == s@[i as int]);
                    assert(rest[1] == s@[i as int + 1]);
                    assert(rest.skip(1) =~= s@.skip(i as int + 1));
                } else {
                    assert(s@.skip(i as int + 1) =~= Seq::<char>::empty());
                    assert(rest =~= seq![s@[i as int]]);
                }
                assert(strip_ddash(rest) =~= seq![s@[i as int]] + strip_ddash(
                    s@.skip(i as int + 1),
                ));
                assert(piece@ =~= seq![s@[i as int]]);
                assert((r@ + piece@) + strip_ddash(s@.skip(i as int + 1)) =~= r@ + strip_ddash(
                    s@.skip(i as int),
                ));
            }
            r.append(piece);
            i = i + 1;
        }
    }
    proof {
        assert(s@.skip(n as int) =~= Seq::<char>::empty());
        assert(r@ + strip_ddash(Seq::<char>::empty()) =~= r@);
    }
    r
}

/// Whether some entry of `v` holds the same text as `x`.
fn contains_string(v: &Vec<String>, x: &String) -> (r: bool)
    ensures
        r == seq_views(v@).contains(x@),
{
    let mut i: usize = 0;
    while i < v.len()
        invariant
            i <= v@.len(),
            forall|j: int| 0 <= j < i ==> (#[trigger] v@[j])@ != x@,
        decreases v@.len() - i,
    {
        if v[i].eq(x) {
            proof {
                assert(seq_views(v@)[i as int] == x@);
            }
            return true;
        }
        i = i + 1;
    }
    proof {
        assert(forall|j: int| 0 <= j < seq_views(v@).len() ==> seq_views(v@)[j] != x@);
    }
    false
}

} // verus!
