use vstd::prelude::*;

use crate::bytes::same_bytes;

verus! {

/// One configured user and the path of the user's mirror file.
#[derive(Debug)]
pub struct MappedUser {
    pub name: Vec<u8>,
    pub mirror: String,
}

/// The configured users, in the order in which they are processed. No name
/// stands twice.
#[derive(Debug)]
pub struct Config {
    users: Vec<MappedUser>,
}

/// What the program is asked to do.
#[derive(Debug, PartialEq, Eq, Clone, Copy)]
pub enum Command {
    /// Write every configured user's mirror file, setting each password first
    /// where `passwd` is set.
    PopulateHashes { passwd: bool },
    /// Rewrite the database from the mirror files.
    PopulateShadow,
    /// Write the mirror files, then again after each change of the database.
    Watch,
}

/// The command line: a command and where to find the configuration.
#[derive(Debug)]
pub struct Cli {
    pub command: Command,
    pub config: Option<String>,
}

/// The names of `users`, in order.
pub open spec fn names_of(users: Seq<MappedUser>) -> Seq<Seq<u8>> {
    users.map_values(|u: MappedUser| u.name@)
}

impl Config {
    /// The configured names, in order.
    pub closed spec fn names(&self) -> Seq<Seq<u8>> {
        names_of(self.users@)
    }

    /// The configured mirror paths, in the order of the names.
    pub closed spec fn mirrors(&self) -> Seq<Seq<char>> {
        self.users@.map_values(|u: MappedUser| u.mirror@)
    }

    pub open spec fn wf(&self) -> bool {
        self.names().no_duplicates()
    }

    /// A configuration without users.
    pub fn new() -> (r: Config)
        ensures
            r.wf(),
            r.names().len() == 0,
            r.mirrors().len() == 0,
    {
        let r = Config { users: Vec::new() };
        assert(r.names() =~= Seq::<Seq<u8>>::empty());
        r
    }

    /// The number of configured users.
    pub fn len(&self) -> (r: usize)
        ensures
            r == self.names().len(),
            r == self.mirrors().len(),
    {
        self.users.len()
    }

    /// The name of the `i`-th user.
    pub fn name(&self, i: usize) -> (r: &Vec<u8>)
        requires
            i < self.names().len(),
        ensures
            r@ == self.names()[i as int],
    {
        &self.users[i].name
    }

    /// The mirror path of the `i`-th user.
    pub fn mirror(&self, i: usize) -> (r: &String)
        requires
            i < self.mirrors().len(),
        ensures
            r@ == self.mirrors()[i as int],
    {
        &self.users[i].mirror
    }

    /// The position of user `name`.
    pub fn find(&self, name: &Vec<u8>) -> (r: Option<usize>)
        ensures
            r matches Some(i) ==> i < self.names().len() && self.names()[i as int] == name@,
            r is None ==> !self.names().contains(name@),
    {
        let mut i: usize = 0;
        while i < self.users.len()
            invariant
                i <= self.users.len(),
                forall|j: int| 0 <= j < i ==> self.names()[j] != name@,
            decreases self.users.len() - i,
        {
            if same_bytes(&self.users[i].name, name) {
                return Some(i);
            }
            i = i + 1;
        }
        None
    }

    /// Adds user `name` with mirror path `mirror` at the end. A name that is
    /// already configured is refused, and the configuration stays as it was.
    pub fn add(&mut self, name: Vec<u8>, mirror: String) -> (r: bool)
        requires
            old(self).wf(),
        ensures
            final(self).wf(),
            r == !old(self).names().contains(name@),
            r ==> final(self).names() == old(self).names().push(name@),
            r ==> final(self).mirrors() == old(self).mirrors().push(mirror@),
            !r ==> final(self).names() == old(self).names(),
            !r ==> final(self).mirrors() == old(self).mirrors(),
    {
        match self.find(&name) {
            Some(_) => false,
            None => {
                let ghost n = name@;
                let ghost m = mirror@;
                self.users.push(MappedUser { name, mirror });
                assert(self.names() =~= old(self).names().push(n));
                assert(self.mirrors() =~= old(self).mirrors().push(m));
                true
            },
        }
    }
}

} // verus!
