use vstd::prelude::*;

verus! {

broadcast use vstd::string::group_string_axioms;

#[derive(PartialEq, Eq, Debug, Clone, Copy)]
pub enum Gender {
    Unspecified,
    Male,
    Female,
}

/// A user's profile, as it is saved to and read back from disk.
#[derive(PartialEq, Eq, Debug)]
pub struct User {
    pub name: String,
    pub age: u8,
    pub gender: Gender,
}

impl User {
    pub fn new(name: String, age: u8, gender: Gender) -> (r: Self)
        ensures
            r.name == name,
            r.age == age,
            r.gender == gender,
    {
        Self { name, age, gender }
    }
}

impl Default for User {
    /// The profile of a user nothing is known of.
    fn default() -> (r: Self)
        ensures
            r.name@ == "Unknown user"@,
            r.age == 0,
            r.gender == Gender::Unspecified,
    {
        Self { name: "Unknown user".to_owned(), age: 0, gender: Gender::Unspecified }
    }
}

} // verus!
