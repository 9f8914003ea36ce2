//! The parts of an outfit, and the keys under which a save holds them.

use vstd::prelude::*;

verus! {

/// A part of an outfit.
#[derive(Debug, Clone, Copy, PartialEq, Eq, Structural)]
pub enum Part {
    Hair,
    Face,
    Accessory,
    Shirt,
    Jacket,
}

impl Part {
    /// The key of a save's data under which the worn item of the part stands.
    pub open spec fn worn_key_of(self) -> Seq<char> {
        match self {
            Part::Hair => "hairon"@,
            Part::Face => "faceon"@,
            Part::Accessory => "jewlon"@,
            Part::Shirt => "shirton"@,
            Part::Jacket => "jacketon"@,
        }
    }

    /// The key of a save's data under which the owned items of the part stand.
    pub open spec fn list_key_of(self) -> Seq<char> {
        match self {
            Part::Hair => "hairlist"@,
            Part::Face => "facelist"@,
            Part::Accessory => "jewllist"@,
            Part::Shirt => "shirtlist"@,
            Part::Jacket => "jacketlist"@,
        }
    }

    /// The name of the part, for people.
    pub open spec fn label_of(self) -> Seq<char> {
        match self {
            Part::Hair => "Hair"@,
            Part::Face => "Face"@,
            Part::Accessory => "Accessory"@,
            Part::Shirt => "Shirt"@,
            Part::Jacket => "Jacket"@,
        }
    }

    /// The key of a save's data under which the worn item of the part stands.
    pub fn worn_key(self) -> (key: &'static str)
        ensures
            key@ == self.worn_key_of(),
    {
        match self {
            Part::Hair => "hairon",
            Part::Face => "faceon",
            Part::Accessory => "jewlon",
            Part::Shirt => "shirton",
            Part::Jacket => "jacketon",
        }
    }

    /// The key of a save's data under which the owned items of the part stand.
    pub fn list_key(self) -> (key: &'static str)
        ensures
            key@ == self.list_key_of(),
    {
        match self {
            Part::Hair => "hairlist",
            Part::Face => "facelist",
            Part::Accessory => "jewllist",
            Part::Shirt => "shirtlist",
            Part::Jacket => "jacketlist",
        }
    }

    /// The name of the part, for people.
    pub fn label(self) -> (label: &'static str)
        ensures
            label@ == self.label_of(),
    {
        match self {
            Part::Hair => "Hair",
            Part::Face => "Face",
            Part::Accessory => "Accessory",
            Part::Shirt => "Shirt",
            Part::Jacket => "Jacket",
        }
    }
}

/// The parts of an outfit, in the order in which they are gone through.
pub open spec fn parts() -> Seq<Part> {
    seq![Part::Hair, Part::Face, Part::Accessory, Part::Shirt, Part::Jacket]
}

/// The parts of an outfit, in the order in which they are gone through.
pub fn all_parts() -> (all: Vec<Part>)
    ensures
        all@ == parts(),
{
    let mut all: Vec<Part> = Vec::new();
    all.push(Part::Hair);
    all.push(Part::Face);
    all.push(Part::Accessory);
    all.push(Part::Shirt);
    all.push(Part::Jacket);
    assert(all@ =~= parts());
    all
}

} // verus!
