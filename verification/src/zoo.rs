//! A small menagerie: named animals whose outings are reported as lines of
//! text for the caller to show.

use vstd::prelude::*;
use vstd::string::StringExecFns;

verus! {

/// A dog with a name.
pub struct Poodle {
    name: String,
}

impl Poodle {
    /// The dog's name.
    pub closed spec fn name_view(&self) -> Seq<char> {
        self.name@
    }

    pub fn new(name: &str) -> (dog: Self)
        ensures
            dog.name_view() == name@,
    {
        Poodle { name: String::from_str(name) }
    }

    /// The line reported when this dog takes a walk.
    pub fn walk_line(&self) -> (line: String)
        ensures
            line@ == self.name_view() + ": WALK"@,
    {
        self.name.clone().concat(": WALK")
    }
}

/// A dog that also answers for the cats.
pub struct MutantDog {
    name: String,
}

impl MutantDog {
    /// The animal's name.
    pub closed spec fn name_view(&self) -> Seq<char> {
        self.name@
    }

    pub fn new(name: &str) -> (animal: Self)
        ensures
            animal.name_view() == name@,
    {
        MutantDog { name: String::from_str(name) }
    }

    /// The line reported when this animal takes a walk.
    pub fn walk_line(&self) -> (line: String)
        ensures
            line@ == self.name_view() + ": Mutant WALK"@,
    {
        self.name.clone().concat(": Mutant WALK")
    }
}

/// The dogs and cats under one roof.
pub struct Zoo {
    dogs: Vec<Poodle>,
    cats: Vec<MutantDog>,
}

impl Zoo {
    /// The dogs held, in arrival order.
    pub closed spec fn dogs_view(&self) -> Seq<Poodle> {
        self.dogs@
    }

    /// The cats held, in arrival order.
    pub closed spec fn cats_view(&self) -> Seq<MutantDog> {
        self.cats@
    }

    pub fn new(dogs: Vec<Poodle>, cats: Vec<MutantDog>) -> (zoo: Self)
        ensures
            zoo.dogs_view() == dogs@,
            zoo.cats_view() == cats@,
    {
        Zoo { dogs, cats }
    }

    /// Walks every dog and reports one line per dog, in order.
    pub fn walk_around(&self) -> (lines: Vec<String>)
        ensures
            lines@.len() == self.dogs_view().len(),
            forall|i: int|
                0 <= i < lines@.len() ==> lines@[i]@ == self.dogs_view()[i].name_view()
                    + ": WALK"@,
    {
        let mut lines: Vec<String> = Vec::new();
        let mut at: usize = 0;
        while at < self.dogs.len()
            invariant
                0 <= at <= self.dogs.len(),
                lines@.len() == at,
                forall|i: int|
                    0 <= i < at ==> lines@[i]@ == self.dogs_view()[i].name_view() + ": WALK"@,
            decreases self.dogs.len() - at,
        {
            let line = self.dogs[at].walk_line();
            lines.push(line);
            at = at + 1;
        }
        lines
    }
}

} // verus!
