//! The classifier's general laws, proved once over the model in
//! [`crate::model`]. Each public proof function here states one guarantee of
//! the classifier for every input its hypotheses allow.

use vstd::prelude::*;
use vstd::seq_lib::lemma_seq_contains_after_push;

use crate::ArgError;
use crate::model::{
    Buckets, add_one_short, add_shorts, first_from, has_eq, is_positional_token, lemma_first_from,
    run_tokens, short_content, shorts_wf, starts_ddash, step_token, strip_ddash, variable_name,
    variable_value,
};

verus! {

/// The short-flag set after an add holds exactly the old entries and the
/// singleton of each added character.
proof fn lemma_add_shorts_membership(flags: Seq<Seq<char>>, content: Seq<char>)
    ensures
        forall|x: Seq<char>|
            #[trigger] add_shorts(flags, content).contains(x) <==> (flags.contains(x) || (exists|
                k: int,
            |
                #![auto]
                0 <= k < content.len() && x == seq![content[k]])),
    decreases content.len(),
{
    broadcast use lemma_seq_contains_after_push;

    if content.len() > 0 {
        let head = content.drop_last();
        let c = content.last();
        lemma_add_shorts_membership(flags, head);
        let s = add_shorts(flags, head);
        let s2 = add_shorts(flags, content);
        assert(s2 == add_one_short(s, c));
        assert forall|x: Seq<char>| #[trigger] s2.contains(x) implies (flags.contains(x) || (
        exists|k: int| #![auto] 0 <= k < content.len() && x == seq![content[k]])) by {
            if !flags.contains(x) {
                if s.contains(x) {
                    let k = choose|k: int|
                        #![auto]
                        0 <= k < head.len() && x == seq![head[k]];
                    assert(head[k] == content[k]);
                    assert(0 <= k < content.len() && x == seq![content[k]]);
                } else {
                    assert(x == seq![c]);
                    assert(c == content[content.len() - 1]);
                    assert(0 <= content.len() - 1 < content.len() && x == seq![content[content.len()
                        - 1]]);
                }
            }
        }
        assert forall|x: Seq<char>|
            (flags.contains(x) || (exists|k: int|
                #![auto]
                0 <= k < content.len() && x == seq![content[k]])) implies #[trigger] s2.contains(
            x,
        ) by {
            if flags.contains(x) {
                assert(s.contains(x));
            } else {
                let k = choose|k: int| #![auto] 0 <= k < content.len() && x == seq![content[k]];
                if k < content.len() - 1 {
                    assert(head[k] == content[k]);
                    assert(0 <= k < head.len() && x == seq![head[k]]);
                    assert(s.contains(x));
                } else {
                    assert(x == seq![c]);
                    if !s.contains(seq![c]) {
                        assert(s2 == s.push(seq![c]));
                    }
                }
            }
        }
    }
}

/// Adding short-flag characters preserves well-formedness of the set.
proof fn lemma_add_shorts_wf(flags: Seq<Seq<char>>, content: Seq<char>)
    requires
        shorts_wf(flags),
    ensures
        shorts_wf(add_shorts(flags, content)),
    decreases content.len(),
{
    if content.len() > 0 {
        let head = content.drop_last();
        let c = content.last();
        lemma_add_shorts_wf(flags, head);
        let s = add_shorts(flags, head);
        if !s.contains(seq![c]) {
            assert forall|a: int, b: int| 0 <= a < b < s.push(seq![c]).len() implies s.push(
                seq![c],
            )[a] != s.push(seq![c])[b] by {
                if b == s.len() {
                    assert(s[a] != seq![c]);
                }
            }
        }
    }
}

/// Adding characters whose singletons are all already present changes
/// nothing.
proof fn lemma_add_shorts_absorbed(flags: Seq<Seq<char>>, content: Seq<char>)
    requires
        forall|k: int| #![auto] 0 <= k < content.len() ==> flags.contains(seq![content[k]]),
    ensures
        add_shorts(flags, content) == flags,
    decreases content.len(),
{
    if content.len() > 0 {
        let head = content.drop_last();
        assert(forall|k: int|
            #![auto]
            0 <= k < head.len() ==> head[k] == content[k] && seq![head[k]] == seq![content[k]]);
        lemma_add_shorts_absorbed(flags, head);
        assert(seq![content.last()] == seq![content[content.len() - 1]]);
    }
}

/// A token of `-` followed by one or more non-`-` characters classifies
/// successfully as short flags. Afterwards the short-flag set holds exactly
/// the old entries plus one singleton entry per distinct character of the
/// token, it is still free of duplicates, the other buckets are untouched —
/// and classifying the same token a second time changes nothing.
pub proof fn lemma_short_flag_set_semantics(b: Buckets, t: Seq<char>)
    requires
        t.len() >= 2,
        t[0] == '-',
        forall|i: int| 1 <= i < t.len() ==> t[i] != '-',
        shorts_wf(b.short_flags),
    ensures
        ({
            let after = (Buckets { short_flags: add_shorts(b.short_flags, t.skip(1)), ..b });
            &&& step_token(b, t) == Ok::<Buckets, ArgError>(after)
            &&& forall|x: Seq<char>|
                #[trigger] after.short_flags.contains(x) <==> (b.short_flags.contains(x) || (
                exists|k: int| #![auto] 1 <= k < t.len() && x == seq![t[k]]))
            &&& shorts_wf(after.short_flags)
            &&& step_token(after, t) == Ok::<Buckets, ArgError>(after)
        }),
{
    lemma_first_from(t, '-', 1);
    assert(first_from(t, '-', 1) == t.len());
    assert(short_content(t) =~= t.skip(1));
    assert(short_content(t).len() == t.len() - 1 > 0);
    let content = t.skip(1);
    lemma_add_shorts_membership(b.short_flags, content);
    lemma_add_shorts_wf(b.short_flags, content);
    let after = (Buckets { short_flags: add_shorts(b.short_flags, content), ..b });
    assert forall|x: Seq<char>| #[trigger] after.short_flags.contains(x) implies (
    b.short_flags.contains(x) || (exists|k: int| #![auto] 1 <= k < t.len() && x == seq![t[k]])) by {
        if !b.short_flags.contains(x) {
            let k = choose|k: int| #![auto] 0 <= k < content.len() && x == seq![content[k]];
            assert(content[k] == t[k + 1]);
            assert(1 <= k + 1 < t.len() && x == seq![t[k + 1]]);
        }
    }
    assert forall|x: Seq<char>|
        (b.short_flags.contains(x) || (exists|k: int|
            #![auto]
            1 <= k < t.len() && x == seq![t[k]])) implies #[trigger] after.short_flags.contains(
        x,
    ) by {
        if !b.short_flags.contains(x) {
            let k = choose|k: int| #![auto] 1 <= k < t.len() && x == seq![t[k]];
            assert(content[k - 1] == t[k]);
            assert(0 <= k - 1 < content.len() && x == seq![content[k - 1]]);
        }
    }
    assert forall|k: int| #![auto] 0 <= k < content.len() implies after.short_flags.contains(
        seq![content[k]],
    ) by {
        assert(content[k] == t[k + 1]);
        assert(1 <= k + 1 < t.len() && seq![content[k]] == seq![t[k + 1]]);
    }
    lemma_add_shorts_absorbed(after.short_flags, content);
    assert(step_token(after, t) == Ok::<Buckets, ArgError>(
        (Buckets { short_flags: add_shorts(after.short_flags, content), ..after }),
    ));
    assert((Buckets { short_flags: add_shorts(after.short_flags, content), ..after }) =~= after);
}

/// A long-flag token `--NAME` with a non-empty, `=`-free name classifies
/// successfully and appends the stripped name to the long-flag list; nothing
/// else changes. Names that strip to nothing (such as `--`, making the token
/// `----`) are left out: those fail with `MissingFlagOrVariable`.
pub proof fn lemma_long_flag_appends(b: Buckets, name: Seq<char>)
    requires
        name.len() > 0,
        !name.contains('='),
        strip_ddash(name).len() > 0,
    ensures
        ({
            let t = seq!['-', '-'] + name;
            step_token(b, t) == Ok::<Buckets, ArgError>(
                (Buckets { long_flags: b.long_flags.push(strip_ddash(name)), ..b }),
            )
        }),
{
    let t = seq!['-', '-'] + name;
    assert(t.len() == 2 + name.len());
    assert(t[0] == '-' && t[1] == '-');
    assert(starts_ddash(t));
    assert forall|j: int| 0 <= j < t.len() implies t[j] != '=' by {
        if j >= 2 {
            assert(t[j] == name[j - 2]);
            assert(!(exists|i: int| 0 <= i < name.len() && name[i] == '='));
        }
    }
    lemma_first_from(t, '=', 0);
    assert(!has_eq(t));
    assert(t.skip(2) =~= name);
    assert(strip_ddash(t) == strip_ddash(name));
}

/// A variable token `--NAME=VALUE` with non-empty NAME and VALUE classifies
/// successfully and maps NAME to VALUE in the variable bucket; the VALUE is
/// kept verbatim, later `=` characters included, and nothing else changes.
/// Names containing `--` are left out (for `--x--y=v` the recorded key is the
/// stripped `xy`, not the written name).
pub proof fn lemma_variable_maps_name_to_value(b: Buckets, name: Seq<char>, value: Seq<char>)
    requires
        name.len() > 0,
        value.len() > 0,
        !name.contains('='),
        strip_ddash(name) == name,
    ensures
        ({
            let t = seq!['-', '-'] + name + seq!['='] + value;
            &&& step_token(b, t) == Ok::<Buckets, ArgError>(
                (Buckets { variables: b.variables.insert(name, value), ..b }),
            )
            &&& b.variables.insert(name, value)[name] == value
        }),
{
    let t = seq!['-', '-'] + name + seq!['='] + value;
    let e = 2 + name.len() as int;
    assert(t.len() == e + 1 + value.len());
    assert(t[0] == '-' && t[1] == '-');
    assert(starts_ddash(t));
    assert(t[e] == '=');
    assert forall|j: int| 0 <= j < e implies t[j] != '=' by {
        if j >= 2 {
            assert(t[j] == name[j - 2]);
            assert(!(exists|i: int| 0 <= i < name.len() && name[i] == '='));
        }
    }
    lemma_first_from(t, '=', 0);
    assert(first_from(t, '=', 0) == e);
    assert(has_eq(t));
    assert(t.subrange(0, e) =~= seq!['-', '-'] + name);
    assert((seq!['-', '-'] + name).skip(2) =~= name);
    assert(variable_name(t) == strip_ddash(seq!['-', '-'] + name));
    assert(strip_ddash(seq!['-', '-'] + name) == strip_ddash(name));
    assert(variable_value(t) =~= value);
}

/// Classifying `--NAME=V1` and then `--NAME=V2` leaves the same variable map
/// as classifying `--NAME=V2` alone: the later token overwrites the earlier
/// value.
pub proof fn lemma_variable_overwrite(b: Buckets, name: Seq<char>, v1: Seq<char>, v2: Seq<char>)
    requires
        name.len() > 0,
        v1.len() > 0,
        v2.len() > 0,
        !name.contains('='),
        strip_ddash(name) == name,
    ensures
        ({
            let t1 = seq!['-', '-'] + name + seq!['='] + v1;
            let t2 = seq!['-', '-'] + name + seq!['='] + v2;
            &&& run_tokens(b, seq![t1, t2]) is Ok
            &&& run_tokens(b, seq![t1, t2])->Ok_0.variables == b.variables.insert(name, v2)
        }),
{
    let t1 = seq!['-', '-'] + name + seq!['='] + v1;
    let t2 = seq!['-', '-'] + name + seq!['='] + v2;
    lemma_variable_maps_name_to_value(b, name, v1);
    let b1 = (Buckets { variables: b.variables.insert(name, v1), ..b });
    lemma_variable_maps_name_to_value(b1, name, v2);
    let b2 = (Buckets { variables: b1.variables.insert(name, v2), ..b1 });
    let toks = seq![t1, t2];
    assert(toks[0] == t1);
    assert(toks.skip(1) =~= seq![t2]);
    assert(seq![t2][0] == t2);
    assert(seq![t2].skip(1) =~= Seq::<Seq<char>>::empty());
    assert(run_tokens(b2, Seq::<Seq<char>>::empty()) == Ok::<Buckets, ArgError>(b2));
    assert(run_tokens(b1, seq![t2]) == Ok::<Buckets, ArgError>(b2));
    assert(run_tokens(b, toks) == run_tokens(b1, toks.skip(1)));
    assert(run_tokens(b, toks) == Ok::<Buckets, ArgError>(b2));
    assert(b2.variables =~= b.variables.insert(name, v2));
}

/// A token that does not start with `-` always classifies successfully and is
/// appended verbatim to the positional list; nothing else changes.
pub proof fn lemma_positional_appended(b: Buckets, t: Seq<char>)
    requires
        is_positional_token(t),
    ensures
        step_token(b, t) == Ok::<Buckets, ArgError>(
            (Buckets { positional: b.positional.push(t), ..b }),
        ),
{
}

} // verus!
