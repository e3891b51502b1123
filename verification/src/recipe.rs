//! The recipe data model: a name, a command line, and optional extra
//! arguments appended at run time.

use vstd::prelude::*;

verus! {

/// Mathematical model of a recipe: the character sequences of its fields.
/// `arguments` distinguishes "absent" (`None`) from "explicitly empty"
/// (`Some` of an empty sequence).
pub ghost struct RecipeView {
    pub name: Seq<char>,
    pub command: Seq<char>,
    pub arguments: Option<Seq<Seq<char>>>,
}

/// A named, runnable unit: a command line (executable plus fixed inline
/// arguments, space-delimited) and optional extra arguments.
pub struct Recipe {
    pub name: String,
    pub command: String,
    pub arguments: Option<Vec<String>>,
}

impl View for Recipe {
    type V = RecipeView;

    open spec fn view(&self) -> RecipeView {
        RecipeView {
            name: self.name@,
            command: self.command@,
            arguments: self.arguments.deep_view(),
        }
    }
}

impl DeepView for Recipe {
    type V = RecipeView;

    open spec fn deep_view(&self) -> RecipeView {
        self.view()
    }
}

/// The models of a sequence of recipes, in the same order.
pub open spec fn views_of(s: Seq<Recipe>) -> Seq<RecipeView> {
    s.map_values(|r: Recipe| r@)
}

/// Joining argument texts with a comma separator: the tail gets a
/// separator before each item.
pub open spec fn join_rest(args: Seq<Seq<char>>) -> Seq<char>
    decreases args.len(), 1int,
{
    if args.len() == 0 {
        Seq::empty()
    } else {
        ", "@ + join_args(args)
    }
}

/// Joining argument texts with `", "` between items.
pub open spec fn join_args(args: Seq<Seq<char>>) -> Seq<char>
    decreases args.len(), 0int,
{
    if args.len() == 0 {
        Seq::empty()
    } else {
        args[0] + join_rest(args.drop_first())
    }
}

/// The human-readable description of a recipe: name, command, and the
/// joined arguments, or a fixed note when none are declared.
pub open spec fn describe_spec(rv: RecipeView) -> Seq<char> {
    "> "@ + rv.name + "\ncommand: "@ + rv.command + "\narguments: "@ + (match rv.arguments {
        Some(args) => join_args(args),
        None => "not defined"@,
    }) + "\n"@
}

/// Joins the argument texts from index `k` on, a separator before each.
fn join_rest_exec(args: &Vec<String>, k: usize) -> (out: String)
    requires
        k <= args@.len(),
    ensures
        out@ == join_rest(args.deep_view().skip(k as int)),
    decreases args@.len() - k,
{
    let ghost av = args.deep_view();
    if k == args.len() {
        proof {
            assert(av.skip(k as int) =~~= Seq::<Seq<char>>::empty());
        }
        String::new()
    } else {
        let mut out = String::from_str(", ");
        out.append(args[k].as_str());
        let tail = join_rest_exec(args, k + 1);
        out.append(tail.as_str());
        proof {
            assert(av.skip(k as int).drop_first() =~~= av.skip(k as int + 1));
            assert(av.skip(k as int)[0] == av[k as int]);
            assert(out@ =~= join_rest(av.skip(k as int)));
        }
        out
    }
}

impl Recipe {
    /// Renders the recipe as its multi-line human-readable description.
    pub fn describe(&self) -> (out: String)
        ensures
            out@ == describe_spec(self@),
    {
        let mut out = String::from_str("> ");
        out.append(self.name.as_str());
        out.append("\ncommand: ");
        out.append(self.command.as_str());
        out.append("\narguments: ");
        match &self.arguments {
            Some(args) => {
                let ghost av = args.deep_view();
                if args.len() == 0 {
                    proof {
                        assert(join_args(av) =~= Seq::<char>::empty());
                    }
                } else {
                    out.append(args[0].as_str());
                    let tail = join_rest_exec(args, 1);
                    out.append(tail.as_str());
                    proof {
                        assert(av.drop_first() =~~= av.skip(1));
                    }
                }
                out.append("\n");
                proof {
                    assert(self@.arguments == Some(av));
                    assert(out@ =~= describe_spec(self@));
                }
            },
            None => {
                out.append("not defined");
                out.append("\n");
                proof {
                    assert(out@ =~= describe_spec(self@));
                }
            },
        }
        out
    }
}

/// Clones a vector of strings element by element.
fn clone_strings(v: &Vec<String>) -> (r: Vec<String>)
    ensures
        r@ == v@,
        r.deep_view() == v.deep_view(),
{
    let mut r: Vec<String> = Vec::new();
    let mut i: usize = 0;
    while i < v.len()
        invariant
            i <= v.len(),
            r@ == v@.take(i as int),
        decreases v.len() - i,
    {
        r.push(v[i].clone());
        proof {
            assert(r@ =~= v@.take(i as int + 1));
        }
        i = i + 1;
    }
    proof {
        assert(r@ =~= v@);
        assert(r.deep_view() =~~= v.deep_view());
    }
    r
}

impl Clone for Recipe {
    fn clone(&self) -> (r: Self)
        ensures
            r@ == self@,
    {
        let arguments = match &self.arguments {
            Some(v) => Some(clone_strings(v)),
            None => None,
        };
        Recipe { name: self.name.clone(), command: self.command.clone(), arguments }
    }
}

} // verus!
