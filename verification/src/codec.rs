//! The structured text format of a task registry, and its verified encoder
//! and parser.
//!
//! A registry is persisted as one record per recipe:
//!
//! ```text
//! [[tasks]]
//! name = "build"
//! command = "cargo build"
//! arguments = ["--verbose", "--all"]
//! ```
//!
//! The `arguments` line is absent when the recipe declares no extra
//! arguments, and `arguments = []` when it declares an explicitly empty
//! list, so the two states stay distinguishable on disk. Field values are
//! quoted verbatim; a value containing a double quote cannot be carried by
//! the format and makes the registry unserializable.

use vstd::prelude::*;

use crate::recipe::{Recipe, RecipeView};
use crate::registry::{Rukefile, RukefileError};

verus! {

/// A value the format can carry verbatim: free of double quotes.
pub open spec fn no_quote(s: Seq<char>) -> bool {
    forall|k: int| 0 <= k < s.len() ==> s[k] != '"'
}

/// Every item of an optional argument list can be carried by the format.
pub open spec fn encodable_args(arguments: Option<Seq<Seq<char>>>) -> bool {
    match arguments {
        None => true,
        Some(args) => forall|i: int| 0 <= i < args.len() ==> no_quote(#[trigger] args[i]),
    }
}

/// Every field of the recipe can be carried by the format.
pub open spec fn encodable_recipe(rv: RecipeView) -> bool {
    &&& no_quote(rv.name)
    &&& no_quote(rv.command)
    &&& encodable_args(rv.arguments)
}

/// Every recipe of the sequence can be carried by the format.
pub open spec fn encodable(tasks: Seq<RecipeView>) -> bool {
    forall|i: int| 0 <= i < tasks.len() ==> encodable_recipe(#[trigger] tasks[i])
}

/// The rendering of the tail of an argument list: a separator before each
/// further item.
pub open spec fn render_list_rest(args: Seq<Seq<char>>) -> Seq<char>
    decreases args.len(), 1int,
{
    if args.len() == 0 {
        Seq::empty()
    } else {
        ", "@ + render_list(args)
    }
}

/// The rendering of an argument list's items: each quoted, separated by
/// commas.
pub open spec fn render_list(args: Seq<Seq<char>>) -> Seq<char>
    decreases args.len(), 0int,
{
    if args.len() == 0 {
        Seq::empty()
    } else {
        "\""@ + args[0] + "\""@ + render_list_rest(args.drop_first())
    }
}

/// The rendering of the optional `arguments` line.
pub open spec fn render_args(arguments: Option<Seq<Seq<char>>>) -> Seq<char> {
    match arguments {
        None => Seq::empty(),
        Some(args) => "arguments = ["@ + render_list(args) + "]\n"@,
    }
}

/// The rendering of one recipe record.
pub open spec fn render_record(rv: RecipeView) -> Seq<char> {
    "[[tasks]]\nname = \""@ + rv.name + "\""@ + "\ncommand = \""@ + rv.command + "\""@ + "\n"@
        + render_args(rv.arguments)
}

/// The rendering of a whole registry: its records in order.
pub open spec fn render_tasks(tasks: Seq<RecipeView>) -> Seq<char>
    decreases tasks.len(),
{
    if tasks.len() == 0 {
        Seq::empty()
    } else {
        render_record(tasks[0]) + render_tasks(tasks.drop_first())
    }
}

/// The literal `lit` stands in `s` at position `i`.
pub open spec fn lit_at(s: Seq<char>, i: int, lit: Seq<char>) -> bool {
    0 <= i && i + lit.len() <= s.len() && s.subrange(i, i + lit.len()) == lit
}

/// Scanning a quoted value from position `i`: the characters up to the next
/// double quote, and the position after that quote. `None` when no quote
/// follows.
pub open spec fn scan_value(s: Seq<char>, i: int) -> Option<(Seq<char>, int)>
    decreases s.len() - i,
{
    if i < 0 || i >= s.len() {
        None
    } else if s[i] == '"' {
        Some((Seq::empty(), i + 1))
    } else {
        match scan_value(s, i + 1) {
            None => None,
            Some((v, j)) => Some((seq![s[i]] + v, j)),
        }
    }
}

/// Parsing the items of a non-empty argument list from the first item's
/// opening quote through the closing bracket and newline.
pub open spec fn parse_items(s: Seq<char>, i: int) -> Option<(Seq<Seq<char>>, int)>
    decreases s.len() - i,
{
    if 0 <= i < s.len() && s[i] == '"' {
        match scan_value(s, i + 1) {
            None => None,
            Some((v, j)) => {
                if j + 1 < s.len() && s[j] == ',' && s[j + 1] == ' ' && i < j + 2 {
                    match parse_items(s, j + 2) {
                        None => None,
                        Some((items, k)) => Some((seq![v] + items, k)),
                    }
                } else if j + 1 < s.len() && s[j] == ']' && s[j + 1] == '\n' {
                    Some((seq![v], j + 2))
                } else {
                    None
                }
            },
        }
    } else {
        None
    }
}

/// Parsing the optional `arguments` line; absence parses as `None` without
/// consuming anything.
pub open spec fn parse_args_opt(s: Seq<char>, i: int) -> Option<(Option<Seq<Seq<char>>>, int)> {
    if lit_at(s, i, "arguments = ["@) {
        let j = i + "arguments = ["@.len();
        if j + 1 < s.len() && s[j] == ']' && s[j + 1] == '\n' {
            Some((Some(Seq::empty()), j + 2))
        } else {
            match parse_items(s, j) {
                None => None,
                Some((items, k)) => Some((Some(items), k)),
            }
        }
    } else {
        Some((None, i))
    }
}

/// Parsing one recipe record from position `i`: header, name line, command
/// line, optional arguments line.
pub open spec fn parse_record(s: Seq<char>, i: int) -> Option<(RecipeView, int)> {
    if !lit_at(s, i, "[[tasks]]\nname = \""@) {
        None
    } else {
        match scan_value(s, i + "[[tasks]]\nname = \""@.len()) {
            None => None,
            Some((name, j1)) => {
                if !lit_at(s, j1, "\ncommand = \""@) {
                    None
                } else {
                    match scan_value(s, j1 + "\ncommand = \""@.len()) {
                        None => None,
                        Some((command, j2)) => {
                            if !(0 <= j2 < s.len() && s[j2] == '\n') {
                                None
                            } else {
                                match parse_args_opt(s, j2 + 1) {
                                    None => None,
                                    Some((arguments, j3)) => Some(
                                        (RecipeView { name, command, arguments }, j3),
                                    ),
                                }
                            }
                        },
                    }
                }
            },
        }
    }
}

/// Parsing a whole registry from position `i`: records until the end of the
/// text.
pub open spec fn parse_tasks(s: Seq<char>, i: int) -> Option<Seq<RecipeView>>
    decreases s.len() - i,
{
    if i == s.len() {
        Some(Seq::empty())
    } else {
        match parse_record(s, i) {
            None => None,
            Some((rv, j)) => {
                if i < j <= s.len() {
                    match parse_tasks(s, j) {
                        None => None,
                        Some(rest) => Some(seq![rv] + rest),
                    }
                } else {
                    None
                }
            },
        }
    }
}

/// The meaning of a text as a registry, if it parses.
pub open spec fn parse_spec(s: Seq<char>) -> Option<Seq<RecipeView>> {
    parse_tasks(s, 0)
}

/// A character of a span equal to `w` is the corresponding character of `w`.
proof fn lemma_index_of_span(s: Seq<char>, i: int, w: Seq<char>, k: int)
    requires
        0 <= i,
        i + w.len() <= s.len(),
        s.subrange(i, i + w.len()) == w,
        0 <= k < w.len(),
    ensures
        s[i + k] == w[k],
{
    assert(s.subrange(i, i + w.len())[k] == s[i + k]);
}

/// A sub-span of a span equal to `w` equals the corresponding sub-span of `w`.
proof fn lemma_sub_of_span(s: Seq<char>, i: int, w: Seq<char>, a: int, b: int)
    requires
        0 <= i,
        i + w.len() <= s.len(),
        s.subrange(i, i + w.len()) == w,
        0 <= a <= b <= w.len(),
    ensures
        s.subrange(i + a, i + b) == w.subrange(a, b),
{
    assert forall|m: int| 0 <= m < b - a implies s.subrange(i + a, i + b)[m] == w.subrange(
        a,
        b,
    )[m] by {
        assert(s.subrange(i, i + w.len())[a + m] == s[i + a + m]);
        assert(s.subrange(i + a, i + b)[m] == s[i + a + m]);
        assert(w.subrange(a, b)[m] == w[a + m]);
    }
    assert(s.subrange(i + a, i + b) =~= w.subrange(a, b));
}

/// A scan starting on a quote-free value that a quote follows yields
/// exactly that value.
proof fn lemma_scan_at(s: Seq<char>, p: int, v: Seq<char>)
    requires
        0 <= p,
        no_quote(v),
        p + v.len() < s.len(),
        s.subrange(p, p + v.len()) == v,
        s[p + v.len()] == '"',
    ensures
        scan_value(s, p) == Some((v, p + v.len() + 1)),
{
    assert forall|k: int| p <= k < p + v.len() implies s[k] != '"' by {
        assert(s.subrange(p, p + v.len())[k - p] == s[k]);
    }
    lemma_scan_value_found(s, p, p + v.len());
}

/// Parsing the items of a rendered non-empty argument list, followed by the
/// closing bracket, yields exactly those items.
proof fn lemma_parse_items_render(s: Seq<char>, i: int, args: Seq<Seq<char>>)
    requires
        args.len() >= 1,
        forall|k: int| 0 <= k < args.len() ==> no_quote(#[trigger] args[k]),
        0 <= i,
        i + render_list(args).len() + 2 <= s.len(),
        s.subrange(i, i + render_list(args).len() + 2) == render_list(args) + "]\n"@,
    ensures
        parse_items(s, i) == Some((args, i + render_list(args).len() + 2)),
    decreases args.len(),
{
    reveal_strlit("\"");
    reveal_strlit("]\n");
    reveal_strlit(", ");
    let q: Seq<char> = "\""@;
    let cb: Seq<char> = "]\n"@;
    let cs: Seq<char> = ", "@;
    let a0 = args[0];
    let rest = args.drop_first();
    let rl = render_list(args);
    let whole = rl + cb;
    let n0 = a0.len() as int;
    lemma_index_of_span(s, i, whole, 0);
    assert(whole[0] == '"');
    lemma_sub_of_span(s, i, whole, 1, 1 + n0);
    assert(whole.subrange(1, 1 + n0) =~= a0);
    lemma_index_of_span(s, i, whole, 1 + n0);
    assert(whole[1 + n0] == '"');
    lemma_scan_at(s, i + 1, a0);
    let j = i + n0 + 2;
    if rest.len() == 0 {
        assert(render_list_rest(rest) =~= Seq::<char>::empty());
        assert(rl =~= q + a0 + q);
        lemma_index_of_span(s, i, whole, n0 + 2);
        assert(whole[n0 + 2] == ']');
        lemma_index_of_span(s, i, whole, n0 + 3);
        assert(whole[n0 + 3] == '\n');
        assert(s[j] == ']');
        assert(s[j + 1] == '\n');
        assert(seq![a0] =~= args);
        assert(parse_items(s, i) == Some((args, i + rl.len() + 2)));
    } else {
        assert(render_list_rest(rest) == cs + render_list(rest));
        lemma_index_of_span(s, i, whole, n0 + 2);
        assert(whole[n0 + 2] == ',');
        lemma_index_of_span(s, i, whole, n0 + 3);
        assert(whole[n0 + 3] == ' ');
        assert(s[j] == ',');
        assert(s[j + 1] == ' ');
        lemma_sub_of_span(s, i, whole, n0 + 4, whole.len() as int);
        assert(whole.subrange(n0 + 4, whole.len() as int) =~= render_list(rest) + cb);
        assert forall|k: int| 0 <= k < rest.len() implies no_quote(#[trigger] rest[k]) by {
            assert(rest[k] == args[k + 1]);
        }
        lemma_parse_items_render(s, j + 2, rest);
        assert(seq![a0] + rest =~= args);
        assert(parse_items(s, i) == Some((args, i + rl.len() + 2)));
    }
}

/// Parsing a rendered record, with the end of the text or another record
/// header after it, yields exactly that recipe.
proof fn lemma_parse_record_render(s: Seq<char>, i: int, rv: RecipeView)
    requires
        encodable_recipe(rv),
        0 <= i,
        i + render_record(rv).len() <= s.len(),
        s.subrange(i, i + render_record(rv).len()) == render_record(rv),
        i + render_record(rv).len() == s.len() || s[i + render_record(rv).len()] == '[',
    ensures
        parse_record(s, i) == Some((rv, i + render_record(rv).len())),
{
    reveal_strlit("[[tasks]]\nname = \"");
    reveal_strlit("\ncommand = \"");
    reveal_strlit("arguments = [");
    reveal_strlit("\"");
    reveal_strlit("\n");
    reveal_strlit("]\n");
    let la: Seq<char> = "[[tasks]]\nname = \""@;
    let lb: Seq<char> = "\ncommand = \""@;
    let lar: Seq<char> = "arguments = ["@;
    let q: Seq<char> = "\""@;
    let nl: Seq<char> = "\n"@;
    let cb: Seq<char> = "]\n"@;
    let whole = render_record(rv);
    let fin = i + whole.len();
    let na = la.len() as int;
    let nn = rv.name.len() as int;
    let nb = lb.len() as int;
    let nc = rv.command.len() as int;
    let o2 = na + nn;
    let o3 = o2 + 1;
    let o4 = o3 + nb;
    let o5 = o4 + nc;
    let o6 = o5 + 1;
    let o7 = o6 + 1;
    lemma_sub_of_span(s, i, whole, 0, na);
    assert(whole.subrange(0, na) =~= la);
    assert(lit_at(s, i, la));
    let p1 = i + na;
    lemma_sub_of_span(s, i, whole, na, o2);
    assert(whole.subrange(na, o2) =~= rv.name);
    lemma_index_of_span(s, i, whole, o2);
    assert(whole[o2] == '"');
    lemma_scan_at(s, p1, rv.name);
    let j1 = p1 + nn + 1;
    lemma_sub_of_span(s, i, whole, o3, o4);
    assert(whole.subrange(o3, o4) =~= lb);
    assert(lit_at(s, j1, lb));
    let p2 = j1 + nb;
    lemma_sub_of_span(s, i, whole, o4, o5);
    assert(whole.subrange(o4, o5) =~= rv.command);
    lemma_index_of_span(s, i, whole, o5);
    assert(whole[o5] == '"');
    lemma_scan_at(s, p2, rv.command);
    let j2 = p2 + nc + 1;
    lemma_index_of_span(s, i, whole, o6);
    assert(whole[o6] == '\n');
    assert(s[j2] == '\n');
    let p3 = j2 + 1;
    match rv.arguments {
        None => {
            assert(render_args(rv.arguments) =~= Seq::<char>::empty());
            assert(p3 == fin);
            assert(!lit_at(s, p3, lar)) by {
                if lit_at(s, p3, lar) {
                    assert(s.subrange(p3, p3 + lar.len())[0] == s[p3]);
                    assert(s[p3] == 'a');
                    assert(p3 != s.len());
                    assert(s[p3] == '[');
                }
            }
            assert(parse_args_opt(s, p3) == Some((None::<Seq<Seq<char>>>, p3)));
            assert(parse_record(s, i) == Some((rv, fin)));
        },
        Some(args) => {
            let ap = render_args(rv.arguments);
            assert(ap == lar + render_list(args) + cb);
            let nr = lar.len() as int;
            let nl2 = render_list(args).len() as int;
            lemma_sub_of_span(s, i, whole, o7, o7 + nr);
            assert(whole.subrange(o7, o7 + nr) =~= lar);
            assert(lit_at(s, p3, lar));
            let jj = p3 + nr;
            if args.len() == 0 {
                assert(render_list(args) =~= Seq::<char>::empty());
                lemma_index_of_span(s, i, whole, o7 + nr);
                assert(whole[o7 + nr] == ']');
                lemma_index_of_span(s, i, whole, o7 + nr + 1);
                assert(whole[o7 + nr + 1] == '\n');
                assert(s[jj] == ']');
                assert(s[jj + 1] == '\n');
                assert(jj + 2 == fin);
                assert(rv.arguments =~~= Some(Seq::<Seq<char>>::empty()));
                assert(parse_args_opt(s, p3) == Some(
                    (Some(Seq::<Seq<char>>::empty()), fin),
                ));
                assert(parse_record(s, i) == Some((rv, fin)));
            } else {
                reveal_strlit("\"");
                lemma_index_of_span(s, i, whole, o7 + nr);
                assert(whole[o7 + nr] == '"');
                assert(s[jj] == '"');
                assert(!(s[jj] == ']'));
                lemma_sub_of_span(s, i, whole, o7 + nr, whole.len() as int);
                assert(whole.subrange(o7 + nr, whole.len() as int) =~= render_list(args) + cb);
                assert(encodable_args(rv.arguments));
                lemma_parse_items_render(s, jj, args);
                assert(jj + nl2 + 2 == fin);
                assert(parse_record(s, i) == Some((rv, fin)));
            }
        },
    }
}

/// Parsing a rendered registry from position `i` to the end of the text
/// yields exactly its recipes.
proof fn lemma_parse_tasks_render(s: Seq<char>, i: int, tasks: Seq<RecipeView>)
    requires
        encodable(tasks),
        0 <= i <= s.len(),
        s.subrange(i, s.len() as int) == render_tasks(tasks),
    ensures
        parse_tasks(s, i) == Some(tasks),
    decreases tasks.len(),
{
    reveal_strlit("[[tasks]]\nname = \"");
    if tasks.len() == 0 {
        assert(render_tasks(tasks) =~= Seq::<char>::empty());
        assert(i == s.len());
        assert(Seq::<RecipeView>::empty() =~= tasks);
    } else {
        let rv = tasks[0];
        let rest = tasks.drop_first();
        let rr = render_record(rv);
        let la: Seq<char> = "[[tasks]]\nname = \""@;
        assert(rr.len() >= la.len());
        let whole = render_tasks(tasks);
        let nr = rr.len() as int;
        assert(whole.len() == s.len() - i);
        lemma_sub_of_span(s, i, whole, 0, nr);
        assert(whole.subrange(0, nr) =~= rr);
        let j = i + nr;
        if rest.len() == 0 {
            assert(render_tasks(rest) =~= Seq::<char>::empty());
            assert(j == s.len());
        } else {
            assert(render_tasks(rest) == render_record(rest[0]) + render_tasks(rest.drop_first()));
            assert(render_record(rest[0]).len() >= la.len());
            lemma_index_of_span(s, i, whole, nr);
            assert(render_tasks(rest)[0] == render_record(rest[0])[0]);
            assert(render_record(rest[0])[0] == '[');
            assert(whole[nr] == '[');
            assert(s[j] == '[');
        }
        assert(encodable_recipe(tasks[0]));
        lemma_parse_record_render(s, i, rv);
        lemma_sub_of_span(s, i, whole, nr, whole.len() as int);
        assert(whole.subrange(nr, whole.len() as int) =~= render_tasks(rest));
        assert(s.subrange(j, s.len() as int) == render_tasks(rest));
        assert forall|k: int| 0 <= k < rest.len() implies encodable_recipe(
            #[trigger] rest[k],
        ) by {
            assert(rest[k] == tasks[k + 1]);
        }
        lemma_parse_tasks_render(s, j, rest);
        assert(i != s.len());
        assert(seq![rv] + rest =~= tasks);
        assert(parse_tasks(s, i) == Some(tasks));
    }
}

/// The round trip: a serializable registry, rendered and parsed back,
/// yields the same sequence of recipes with the same field values.
pub proof fn lemma_save_load_roundtrip(tasks: Seq<RecipeView>)
    requires
        encodable(tasks),
    ensures
        parse_spec(render_tasks(tasks)) == Some(tasks),
{
    let s = render_tasks(tasks);
    assert(s.subrange(0, s.len() as int) =~= s);
    lemma_parse_tasks_render(s, 0, tasks);
}

/// Distinct registries render to distinct texts; in particular a recipe
/// with an explicitly empty argument list and one with no argument list
/// have distinguishable encodings.
pub proof fn lemma_render_injective(a: Seq<RecipeView>, b: Seq<RecipeView>)
    requires
        encodable(a),
        encodable(b),
        a != b,
    ensures
        render_tasks(a) != render_tasks(b),
{
    if render_tasks(a) == render_tasks(b) {
        lemma_save_load_roundtrip(a);
        lemma_save_load_roundtrip(b);
        assert(false);
    }
}

/// Whether the literal `lit` stands in `s` at position `i`.
fn lit_at_exec(s: &str, i: usize, lit: &str) -> (r: bool)
    ensures
        r == lit_at(s@, i as int, lit@),
{
    let n = s.unicode_len();
    let m = lit.unicode_len();
    if i > n {
        return false;
    }
    if m > n - i {
        return false;
    }
    let mut j: usize = 0;
    while j < m
        invariant
            j <= m,
            i + m <= n,
            n == s@.len(),
            m == lit@.len(),
            forall|k: int| 0 <= k < j ==> s@[i + k] == lit@[k],
        decreases m - j,
    {
        if s.get_char(i + j) != lit.get_char(j) {
            proof {
                let sub = s@.subrange(i as int, i as int + m as int);
                assert(sub[j as int] == s@[i + j]);
                assert(sub != lit@);
            }
            return false;
        }
        j = j + 1;
    }
    proof {
        assert(s@.subrange(i as int, i as int + m as int) =~= lit@);
    }
    true
}

/// The position of the first double quote at or after `i`, if any.
fn find_quote(s: &str, i: usize) -> (r: Option<usize>)
    requires
        i <= s@.len(),
    ensures
        r matches Some(j) ==> i <= j < s@.len() && s@[j as int] == '"' && (forall|k: int|
            i <= k < j ==> s@[k] != '"'),
        r is None ==> forall|k: int| i <= k < s@.len() ==> s@[k] != '"',
{
    let n = s.unicode_len();
    let mut j: usize = i;
    while j < n
        invariant
            i <= j <= n,
            n == s@.len(),
            forall|k: int| i <= k < j ==> s@[k] != '"',
        decreases n - j,
    {
        if s.get_char(j) == '"' {
            return Some(j);
        }
        j = j + 1;
    }
    None
}

/// A scan of a quote-free span ending in a quote yields exactly that span.
proof fn lemma_scan_value_found(s: Seq<char>, i: int, j: int)
    requires
        0 <= i <= j < s.len(),
        s[j] == '"',
        forall|k: int| i <= k < j ==> s[k] != '"',
    ensures
        scan_value(s, i) == Some((s.subrange(i, j), j + 1)),
    decreases j - i,
{
    if i == j {
        assert(s.subrange(i, j) =~= Seq::<char>::empty());
    } else {
        lemma_scan_value_found(s, i + 1, j);
        assert(seq![s[i]] + s.subrange(i + 1, j) =~= s.subrange(i, j));
    }
}

/// A scan with no quote ahead fails.
proof fn lemma_scan_value_none(s: Seq<char>, i: int)
    requires
        0 <= i,
        forall|k: int| i <= k < s.len() ==> s[k] != '"',
    ensures
        scan_value(s, i) is None,
    decreases s.len() - i,
{
    if i < s.len() {
        lemma_scan_value_none(s, i + 1);
    }
}

/// Scans a quoted value: the text up to the next double quote, and the
/// position after that quote.
fn scan_value_exec(s: &str, i: usize) -> (r: Option<(String, usize)>)
    requires
        i <= s@.len(),
    ensures
        r matches Some(p) ==> scan_value(s@, i as int) == Some((p.0@, p.1 as int)) && i < p.1
            <= s@.len(),
        r is None ==> scan_value(s@, i as int) is None,
{
    match find_quote(s, i) {
        None => {
            proof {
                lemma_scan_value_none(s@, i as int);
            }
            None
        },
        Some(j) => {
            // The text length bounds the quote position, so the position
            // just past it still fits in usize.
            let _len = s.unicode_len();
            let v = s.substring_char(i, j).to_owned();
            proof {
                lemma_scan_value_found(s@, i as int, j as int);
            }
            Some((v, j + 1))
        },
    }
}

/// Parses the items of a non-empty argument list.
fn parse_items_exec(s: &str, i: usize) -> (r: Option<(Vec<String>, usize)>)
    requires
        i <= s@.len(),
    ensures
        r matches Some(p) ==> parse_items(s@, i as int) == Some((p.0.deep_view(), p.1 as int))
            && i < p.1 <= s@.len(),
        r is None ==> parse_items(s@, i as int) is None,
    decreases s@.len() - i,
{
    let n = s.unicode_len();
    if !(i < n && s.get_char(i) == '"') {
        return None;
    }
    match scan_value_exec(s, i + 1) {
        None => None,
        Some((v, j)) => {
            if j < n && n - j > 1 && s.get_char(j) == ',' && s.get_char(j + 1) == ' ' {
                match parse_items_exec(s, j + 2) {
                    None => None,
                    Some((items, k)) => {
                        let ghost restv = items.deep_view();
                        let mut items = items;
                        items.insert(0, v);
                        proof {
                            assert(items.deep_view() =~~= seq![v@] + restv);
                        }
                        Some((items, k))
                    },
                }
            } else if j < n && n - j > 1 && s.get_char(j) == ']' && s.get_char(j + 1) == '\n' {
                let mut items: Vec<String> = Vec::new();
                items.push(v);
                proof {
                    assert(items.deep_view() =~~= seq![items@[0]@]);
                }
                Some((items, j + 2))
            } else {
                None
            }
        },
    }
}

/// Parses the optional `arguments` line; absence consumes nothing.
fn parse_args_exec(s: &str, i: usize) -> (r: Option<(Option<Vec<String>>, usize)>)
    requires
        i <= s@.len(),
    ensures
        r matches Some(p) ==> parse_args_opt(s@, i as int) == Some(
            (p.0.deep_view(), p.1 as int),
        ) && i <= p.1 <= s@.len(),
        r is None ==> parse_args_opt(s@, i as int) is None,
{
    let n = s.unicode_len();
    if lit_at_exec(s, i, "arguments = [") {
        let j = i + "arguments = [".unicode_len();
        if j < n && n - j > 1 && s.get_char(j) == ']' && s.get_char(j + 1) == '\n' {
            let empty_vec: Vec<String> = Vec::new();
            let ghost ev = empty_vec.deep_view();
            let items: Option<Vec<String>> = Some(empty_vec);
            proof {
                assert(ev =~~= Seq::<Seq<char>>::empty());
                assert(items.deep_view() == Some(ev));
            }
            Some((items, j + 2))
        } else {
            match parse_items_exec(s, j) {
                None => None,
                Some((items, k)) => Some((Some(items), k)),
            }
        }
    } else {
        Some((None, i))
    }
}

/// Parses one recipe record: header, name line, command line, optional
/// arguments line.
fn parse_record_exec(s: &str, i: usize) -> (r: Option<(Recipe, usize)>)
    requires
        i <= s@.len(),
    ensures
        r matches Some(p) ==> parse_record(s@, i as int) == Some((p.0@, p.1 as int)) && i <= p.1
            <= s@.len(),
        r is None ==> parse_record(s@, i as int) is None,
{
    let n = s.unicode_len();
    if !lit_at_exec(s, i, "[[tasks]]\nname = \"") {
        return None;
    }
    let a = i + "[[tasks]]\nname = \"".unicode_len();
    match scan_value_exec(s, a) {
        None => None,
        Some((name, j1)) => {
            if !lit_at_exec(s, j1, "\ncommand = \"") {
                return None;
            }
            let b = j1 + "\ncommand = \"".unicode_len();
            match scan_value_exec(s, b) {
                None => None,
                Some((command, j2)) => {
                    if !(j2 < n && s.get_char(j2) == '\n') {
                        return None;
                    }
                    match parse_args_exec(s, j2 + 1) {
                        None => None,
                        Some((arguments, j3)) => {
                            let rec = Recipe { name, command, arguments };
                            Some((rec, j3))
                        },
                    }
                },
            }
        },
    }
}

/// Parses records until the end of the text.
fn parse_tasks_exec(s: &str, i: usize) -> (r: Option<Vec<Recipe>>)
    requires
        i <= s@.len(),
    ensures
        r matches Some(v) ==> parse_tasks(s@, i as int) == Some(v.deep_view()),
        r is None ==> parse_tasks(s@, i as int) is None,
    decreases s@.len() - i,
{
    let n = s.unicode_len();
    if i == n {
        let v: Vec<Recipe> = Vec::new();
        proof {
            assert(v.deep_view() =~~= Seq::<RecipeView>::empty());
        }
        return Some(v);
    }
    match parse_record_exec(s, i) {
        None => None,
        Some((rec, j)) => {
            if i < j && j <= n {
                match parse_tasks_exec(s, j) {
                    None => None,
                    Some(rest) => {
                        let ghost restv = rest.deep_view();
                        let mut rest = rest;
                        rest.insert(0, rec);
                        proof {
                            assert(rest.deep_view() =~~= seq![rec@] + restv);
                        }
                        Some(rest)
                    },
                }
            } else {
                None
            }
        },
    }
}

impl Rukefile {
    /// Parses the structured text into a registry; malformed text yields a
    /// format error, never a partial registry.
    pub fn from_str(raw: &str) -> (r: Result<Rukefile, RukefileError>)
        ensures
            r matches Ok(rf) ==> parse_spec(raw@) == Some(rf@),
            r is Err ==> parse_spec(raw@) is None,
            r matches Err(e) ==> e is TomlError,
    {
        match parse_tasks_exec(raw, 0) {
            Some(tasks) => {
                proof {
                    assert(crate::recipe::views_of(tasks@) =~~= tasks.deep_view());
                }
                Ok(Rukefile { tasks })
            },
            None => Err(RukefileError::TomlError("the text does not parse as a task file".to_owned())),
        }
    }
}

/// Renders the tail of an argument list, from index `k` on.
fn render_rest_exec(args: &Vec<String>, k: usize) -> (out: String)
    requires
        k <= args@.len(),
    ensures
        out@ == render_list_rest(args.deep_view().skip(k as int)),
    decreases args@.len() - k,
{
    let ghost av = args.deep_view();
    if k == args.len() {
        proof {
            assert(av.skip(k as int) =~~= Seq::<Seq<char>>::empty());
        }
        String::new()
    } else {
        let mut out = String::from_str(", ");
        out.append("\"");
        out.append(args[k].as_str());
        out.append("\"");
        let tail = render_rest_exec(args, k + 1);
        out.append(tail.as_str());
        proof {
            assert(av.skip(k as int).drop_first() =~~= av.skip(k as int + 1));
            assert(av.skip(k as int)[0] == av[k as int]);
            assert(out@ =~= render_list_rest(av.skip(k as int)));
        }
        out
    }
}

/// Renders an argument list's items, each quoted, separated by commas.
fn render_list_exec(args: &Vec<String>) -> (out: String)
    ensures
        out@ == render_list(args.deep_view()),
{
    let ghost av = args.deep_view();
    if args.len() == 0 {
        proof {
            assert(render_list(av) =~= Seq::<char>::empty());
        }
        String::new()
    } else {
        let mut out = String::from_str("\"");
        out.append(args[0].as_str());
        out.append("\"");
        let tail = render_rest_exec(args, 1);
        out.append(tail.as_str());
        proof {
            assert(av.drop_first() =~~= av.skip(1));
            assert(out@ =~= render_list(av));
        }
        out
    }
}

/// Renders one recipe record.
fn render_record_exec(r: &Recipe) -> (out: String)
    ensures
        out@ == render_record(r@),
{
    let mut out = String::from_str("[[tasks]]\nname = \"");
    out.append(r.name.as_str());
    out.append("\"");
    out.append("\ncommand = \"");
    out.append(r.command.as_str());
    out.append("\"");
    out.append("\n");
    match &r.arguments {
        None => {
            proof {
                assert(out@ =~= render_record(r@));
            }
        },
        Some(args) => {
            out.append("arguments = [");
            let list = render_list_exec(args);
            out.append(list.as_str());
            out.append("]\n");
            proof {
                assert(r@.arguments == Some(args.deep_view()));
                assert(out@ =~= render_record(r@));
            }
        },
    }
    out
}

/// Renders the records of the recipes from index `k` on, in order.
fn render_tasks_exec(tasks: &Vec<Recipe>, k: usize) -> (out: String)
    requires
        k <= tasks@.len(),
    ensures
        out@ == render_tasks(crate::recipe::views_of(tasks@).skip(k as int)),
    decreases tasks@.len() - k,
{
    let ghost tv = crate::recipe::views_of(tasks@);
    if k == tasks.len() {
        proof {
            assert(tv.skip(k as int) =~~= Seq::<RecipeView>::empty());
        }
        String::new()
    } else {
        let mut out = render_record_exec(&tasks[k]);
        let tail = render_tasks_exec(tasks, k + 1);
        out.append(tail.as_str());
        proof {
            assert(tv.skip(k as int).drop_first() =~~= tv.skip(k as int + 1));
            assert(tv.skip(k as int)[0] == tv[k as int]);
            assert(out@ =~= render_tasks(tv.skip(k as int)));
        }
        out
    }
}

/// Whether the string holds a double quote anywhere.
fn str_has_quote(s: &str) -> (r: bool)
    ensures
        r == !no_quote(s@),
{
    let len = s.unicode_len();
    let mut i: usize = 0;
    while i < len
        invariant
            i <= len,
            len == s@.len(),
            forall|k: int| 0 <= k < i ==> s@[k] != '"',
        decreases len - i,
    {
        if s.get_char(i) == '"' {
            return true;
        }
        i = i + 1;
    }
    false
}

/// Whether every field of the recipe can be carried by the format.
fn recipe_encodable(r: &Recipe) -> (b: bool)
    ensures
        b == encodable_recipe(r@),
{
    if str_has_quote(r.name.as_str()) {
        return false;
    }
    if str_has_quote(r.command.as_str()) {
        return false;
    }
    match &r.arguments {
        None => true,
        Some(args) => {
            let ghost av = args.deep_view();
            let mut i: usize = 0;
            while i < args.len()
                invariant
                    i <= args@.len(),
                    av == args.deep_view(),
                    r@.arguments == Some(av),
                    no_quote(r.name@),
                    no_quote(r.command@),
                    forall|k: int| 0 <= k < i ==> no_quote(#[trigger] av[k]),
                decreases args@.len() - i,
            {
                if str_has_quote(args[i].as_str()) {
                    proof {
                        assert(!no_quote(av[i as int]));
                        assert(av.len() == args@.len());
                        assert(r@.arguments == Some(av));
                        assert(!encodable_recipe(r@)) by {
                            if encodable_recipe(r@) {
                                assert(encodable_args(r@.arguments));
                                let aseq = r@.arguments->Some_0;
                                assert(aseq == av);
                                assert(no_quote(aseq[i as int]));
                                assert(no_quote(av[i as int]));
                            }
                        }
                    }
                    return false;
                }
                i = i + 1;
            }
            true
        },
    }
}

impl Rukefile {
    /// Serializes the registry to the structured text format, or reports
    /// that the in-memory model cannot be carried by it.
    pub fn render(&self) -> (r: Result<String, RukefileError>)
        ensures
            r matches Ok(out) ==> encodable(self@) && out@ == render_tasks(self@),
            r is Err ==> !encodable(self@),
            r matches Err(e) ==> e is SerializeError,
    {
        let mut i: usize = 0;
        while i < self.tasks.len()
            invariant
                i <= self.tasks@.len(),
                forall|k: int| 0 <= k < i ==> encodable_recipe(#[trigger] self@[k]),
            decreases self.tasks@.len() - i,
        {
            if !recipe_encodable(&self.tasks[i]) {
                proof {
                    assert(!encodable_recipe(self@[i as int]));
                }
                return Err(RukefileError::SerializeError);
            }
            i = i + 1;
        }
        let out = render_tasks_exec(&self.tasks, 0);
        proof {
            assert(crate::recipe::views_of(self.tasks@).skip(0) =~~= self@);
        }
        Ok(out)
    }
}

} // verus!
