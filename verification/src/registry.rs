//! The task registry: the ordered sequence of all recipes of one
//! configuration file, with exact-name lookup and append-only mutation.

use vstd::prelude::*;

use crate::recipe::{describe_spec, Recipe, RecipeView, views_of};

verus! {

/// The in-memory registry. Order is insertion order; an added recipe is
/// appended at the end.
pub struct Rukefile {
    pub tasks: Vec<Recipe>,
}

/// The reported error kinds of loading and saving a registry.
#[derive(Debug)]
pub enum RukefileError {
    /// The file could not be read or written; carries a description.
    IoError(String),
    /// The text does not parse as the structured task format.
    TomlError(String),
    /// The in-memory registry cannot be serialized (a field holds a
    /// character the format cannot carry).
    SerializeError,
}

impl View for Rukefile {
    type V = Seq<RecipeView>;

    open spec fn view(&self) -> Seq<RecipeView> {
        views_of(self.tasks@)
    }
}

/// The first recipe of the sequence carrying the queried name, if any.
pub open spec fn spec_find(tasks: Seq<RecipeView>, name: Seq<char>) -> Option<RecipeView>
    decreases tasks.len(),
{
    if tasks.len() == 0 {
        None
    } else if tasks[0].name == name {
        Some(tasks[0])
    } else {
        spec_find(tasks.drop_first(), name)
    }
}

/// A lookup misses exactly when no recipe of the sequence carries the name,
/// and a hit is a recipe of the sequence carrying it.
pub proof fn lemma_find_complete(tasks: Seq<RecipeView>, name: Seq<char>)
    ensures
        spec_find(tasks, name) is Some <==> exists|i: int|
            0 <= i < tasks.len() && tasks[i].name == name,
        spec_find(tasks, name) matches Some(rv) ==> rv.name == name && exists|i: int|
            0 <= i < tasks.len() && tasks[i] == rv,
    decreases tasks.len(),
{
    if tasks.len() > 0 {
        if tasks[0].name == name {
        } else {
            lemma_find_complete(tasks.drop_first(), name);
            if spec_find(tasks, name) is Some {
                let rv = spec_find(tasks.drop_first(), name)->Some_0;
                let i = choose|i: int|
                    0 <= i < tasks.drop_first().len() && tasks.drop_first()[i] == rv;
                assert(tasks[i + 1] == rv);
            }
            if exists|i: int| 0 <= i < tasks.len() && tasks[i].name == name {
                let i = choose|i: int| 0 <= i < tasks.len() && tasks[i].name == name;
                assert(i > 0);
                assert(tasks.drop_first()[i - 1].name == name);
            }
        }
    }
}

/// Appending a recipe to an empty sequence and looking its name up yields
/// exactly that recipe: a fresh registry finds what was just added.
pub proof fn lemma_add_then_find(tasks: Seq<RecipeView>, name: Seq<char>, command: Seq<char>)
    requires
        tasks.len() == 0,
    ensures
        spec_find(
            tasks.push(RecipeView { name, command, arguments: None }),
            name,
        ) == Some(RecipeView { name, command, arguments: None }),
{
    let pushed = tasks.push(RecipeView { name, command, arguments: None });
    assert(pushed[0] == RecipeView { name, command, arguments: None });
}

impl Rukefile {
    /// Linear scan for the first recipe with the queried name; `None` exactly
    /// when the registry holds no recipe of that name.
    pub fn find_recipe(&self, name: String) -> (r: Option<Recipe>)
        ensures
            r.deep_view() == spec_find(self@, name@),
            r is Some <==> exists|i: int| 0 <= i < self@.len() && self@[i].name == name@,
            r matches Some(rec) ==> rec@.name == name@,
    {
        proof {
            lemma_find_complete(self@, name@);
            assert(self@.skip(0) =~= self@);
        }
        let mut i: usize = 0;
        while i < self.tasks.len()
            invariant
                i <= self.tasks@.len(),
                spec_find(self@, name@) == spec_find(self@.skip(i as int), name@),
                forall|j: int| 0 <= j < i ==> self@[j].name != name@,
            decreases self.tasks@.len() - i,
        {
            if self.tasks[i].name == name {
                proof {
                    assert(self@.skip(i as int)[0] == self@[i as int]);
                }
                return Some(self.tasks[i].clone());
            }
            proof {
                assert(self@.skip(i as int).drop_first() =~= self@.skip(i as int + 1));
                assert(self@.skip(i as int)[0] == self@[i as int]);
            }
            i = i + 1;
        }
        proof {
            assert(self@.skip(i as int) =~= Seq::<RecipeView>::empty());
        }
        None
    }

    /// Appends a new recipe with no extra arguments; duplicate names are
    /// permitted.
    pub fn add_task(&mut self, name: String, command: String)
        ensures
            final(self)@ == old(self)@.push(
                RecipeView { name: name@, command: command@, arguments: None },
            ),
    {
        let ghost nv = name@;
        let ghost cv = command@;
        let task = Recipe { name, command, arguments: None };
        self.tasks.push(task);
        proof {
            assert(self@ =~= old(self)@.push(
                RecipeView { name: nv, command: cv, arguments: None },
            ));
        }
    }

    /// The recipe names, in registry order.
    pub fn task_names(&self) -> (r: Vec<String>)
        ensures
            r@.len() == self@.len(),
            forall|i: int| 0 <= i < r@.len() ==> r@[i]@ == self@[i].name,
    {
        let mut r: Vec<String> = Vec::new();
        let mut i: usize = 0;
        while i < self.tasks.len()
            invariant
                i <= self.tasks@.len(),
                r@.len() == i,
                forall|j: int| 0 <= j < i ==> r@[j]@ == self@[j].name,
            decreases self.tasks@.len() - i,
        {
            r.push(self.tasks[i].name.clone());
            i = i + 1;
        }
        r
    }

    /// The human-readable description of every recipe, in registry order.
    pub fn describe_all(&self) -> (r: Vec<String>)
        ensures
            r@.len() == self@.len(),
            forall|i: int| 0 <= i < r@.len() ==> r@[i]@ == describe_spec(self@[i]),
    {
        let mut r: Vec<String> = Vec::new();
        let mut i: usize = 0;
        while i < self.tasks.len()
            invariant
                i <= self.tasks@.len(),
                r@.len() == i,
                forall|j: int| 0 <= j < i ==> r@[j]@ == describe_spec(self@[j]),
            decreases self.tasks@.len() - i,
        {
            r.push(self.tasks[i].describe());
            i = i + 1;
        }
        r
    }
}

} // verus!
