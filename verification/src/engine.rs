//! The execution engine's verifiable core: splitting a command line into
//! tokens, composing the final argument vector, and the reporting policy.
//! Spawning the child process itself is left to the embedding program.

use vstd::prelude::*;

use crate::recipe::{Recipe, RecipeView};

verus! {

/// Splitting a character sequence at every space, keeping empty tokens:
/// the result always holds at least one token.
pub open spec fn split_on_space(s: Seq<char>) -> Seq<Seq<char>>
    decreases s.len(),
{
    if s.len() == 0 {
        seq![Seq::<char>::empty()]
    } else if s.last() == ' ' {
        split_on_space(s.drop_last()).push(Seq::<char>::empty())
    } else {
        let rest = split_on_space(s.drop_last());
        rest.update(rest.len() - 1, rest.last().push(s.last()))
    }
}

/// The split never yields an empty token list.
pub proof fn lemma_split_nonempty(s: Seq<char>)
    ensures
        split_on_space(s).len() >= 1,
    decreases s.len(),
{
    if s.len() > 0 {
        lemma_split_nonempty(s.drop_last());
    }
}

/// Token 0 of the command line: the executable.
pub open spec fn program_of(rv: RecipeView) -> Seq<char> {
    split_on_space(rv.command)[0]
}

/// Tokens 1.. of the command line: the inline positional arguments.
pub open spec fn inline_args(rv: RecipeView) -> Seq<Seq<char>> {
    split_on_space(rv.command).drop_first()
}

/// The final argument vector: the inline positional arguments followed by
/// the recipe's extra arguments if present, in that order.
pub open spec fn composed_args(rv: RecipeView) -> Seq<Seq<char>> {
    match rv.arguments {
        Some(extra) => inline_args(rv) + extra,
        None => inline_args(rv),
    }
}

/// Whether captured standard output is emitted: only after a successful
/// exit, and only when not quiet.
pub open spec fn emits_stdout(success: bool, quiet: bool) -> bool {
    success && !quiet
}

/// Whether captured standard error is emitted: exactly after a failed exit,
/// regardless of quietness.
pub open spec fn emits_stderr(success: bool, quiet: bool) -> bool {
    !success
}

/// A successful, quiet run emits nothing on either stream.
pub proof fn lemma_quiet_suppression(quiet: bool)
    ensures
        quiet ==> !emits_stdout(true, quiet),
        !emits_stderr(true, quiet),
{
}

/// A resolved invocation: the executable and its final argument vector.
pub struct Invocation {
    pub program: String,
    pub args: Vec<String>,
}

/// Splits a command line at every space, keeping empty tokens.
pub fn split_command(s: &str) -> (r: Vec<String>)
    ensures
        r.deep_view() == split_on_space(s@),
        r@.len() >= 1,
{
    let len = s.unicode_len();
    let mut r: Vec<String> = Vec::new();
    let mut start: usize = 0;
    let mut i: usize = 0;
    proof {
        assert(s@.take(0) =~= Seq::<char>::empty());
        assert(r.deep_view().push(s@.subrange(0, 0)) =~~= split_on_space(s@.take(0)));
    }
    while i < len
        invariant
            0 <= start <= i <= len,
            len == s@.len(),
            split_on_space(s@.take(i as int)) == r.deep_view().push(
                s@.subrange(start as int, i as int),
            ),
        decreases len - i,
    {
        proof {
            assert(s@.take(i + 1 as int).drop_last() =~= s@.take(i as int));
            assert(s@.take(i + 1 as int).last() == s@[i as int]);
        }
        if s.get_char(i) == ' ' {
            let token = s.substring_char(start, i).to_owned();
            r.push(token);
            start = i + 1;
            proof {
                assert(split_on_space(s@.take(i + 1 as int)) =~~= r.deep_view().push(
                    s@.subrange(start as int, i + 1 as int),
                ));
            }
        } else {
            proof {
                let old_tokens = r.deep_view().push(s@.subrange(start as int, i as int));
                assert(old_tokens.last() == s@.subrange(start as int, i as int));
                assert(s@.subrange(start as int, i as int).push(s@[i as int]) =~= s@.subrange(
                    start as int,
                    i + 1 as int,
                ));
                assert(split_on_space(s@.take(i + 1 as int)) =~~= r.deep_view().push(
                    s@.subrange(start as int, i + 1 as int),
                ));
            }
        }
        i = i + 1;
    }
    let last = s.substring_char(start, len).to_owned();
    r.push(last);
    proof {
        assert(s@.take(len as int) =~= s@);
        assert(r.deep_view() =~~= split_on_space(s@));
    }
    r
}

/// Composes the invocation of a resolved recipe: token 0 of the command
/// line is the executable; the final argument vector is the inline tokens
/// followed by the extra arguments if present.
pub fn compose_invocation(recipe: &Recipe) -> (inv: Invocation)
    ensures
        inv.program@ == program_of(recipe@),
        inv.args.deep_view() == composed_args(recipe@),
{
    let tokens = split_command(recipe.command.as_str());
    let program = tokens[0].clone();
    let mut args: Vec<String> = Vec::new();
    let mut i: usize = 1;
    while i < tokens.len()
        invariant
            1 <= i <= tokens@.len(),
            tokens@.len() >= 1,
            args@ == tokens@.subrange(1, i as int),
        decreases tokens@.len() - i,
    {
        args.push(tokens[i].clone());
        proof {
            assert(args@ =~= tokens@.subrange(1, i + 1 as int));
        }
        i = i + 1;
    }
    proof {
        assert(args@ =~= tokens@.drop_first());
        assert(args.deep_view() =~~= tokens.deep_view().drop_first());
    }
    match &recipe.arguments {
        Some(extra) => {
            let ghost inline = args@;
            let ghost inline_deep = args.deep_view();
            let mut j: usize = 0;
            proof {
                assert(args@ =~= inline + extra@.take(0));
            }
            while j < extra.len()
                invariant
                    j <= extra@.len(),
                    args@ == inline + extra@.take(j as int),
                decreases extra@.len() - j,
            {
                args.push(extra[j].clone());
                proof {
                    assert(args@ =~= inline + extra@.take(j + 1 as int));
                }
                j = j + 1;
            }
            proof {
                assert(args@ =~= inline + extra@);
                assert(args.deep_view() =~~= inline_deep + extra.deep_view());
            }
            Invocation { program, args }
        },
        None => Invocation { program, args },
    }
}

/// Decides which captured streams are emitted after a run: standard output
/// only on success while not quiet, standard error exactly on failure.
pub fn report_streams(success: bool, quiet: bool) -> (r: (bool, bool))
    ensures
        r.0 == emits_stdout(success, quiet),
        r.1 == emits_stderr(success, quiet),
{
    (success && !quiet, !success)
}

} // verus!
