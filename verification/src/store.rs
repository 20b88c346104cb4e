//! A flat username-to-password-hash store: the small companion demo that
//! shares the hash function but none of the chain machinery.

use vstd::prelude::*;

use crate::order::copy_bytes;

verus! {

/// The mapping a list of entries denotes: each entry binds its username,
/// later entries overriding earlier ones.
pub open spec fn entries_map(s: Seq<(String, Vec<u8>)>) -> Map<Seq<char>, Seq<u8>>
    decreases s.len(),
{
    if s.len() == 0 {
        Map::empty()
    } else {
        entries_map(s.drop_last()).insert(s.last().0@, s.last().1@)
    }
}

/// A username-to-password-hash store, viewed as the mapping its entries
/// denote.
pub struct Database {
    pub entries: Vec<(String, Vec<u8>)>,
}

impl View for Database {
    type V = Map<Seq<char>, Seq<u8>>;

    open spec fn view(&self) -> Map<Seq<char>, Seq<u8>> {
        entries_map(self.entries@)
    }
}

impl Database {
    /// An empty store: no username is bound.
    pub fn new() -> (r: Database)
        ensures
            r@ == Map::<Seq<char>, Seq<u8>>::empty(),
    {
        Database { entries: Vec::new() }
    }

    /// Binds `username` to `password`, overriding any earlier binding.
    pub fn insert(&mut self, username: String, password: Vec<u8>)
        ensures
            final(self)@ == old(self)@.insert(username@, password@),
    {
        let ghost olde = self.entries@;
        self.entries.push((username, password));
        proof {
            assert(self.entries@.drop_last() =~= olde);
        }
    }

    /// The password hash bound to `username`, which must be present.
    pub fn get(&self, username: &String) -> (r: Vec<u8>)
        requires
            self@.contains_key(username@),
        ensures
            r@ == self@[username@],
    {
        let mut i: usize = self.entries.len();
        proof {
            assert(self.entries@.take(i as int) =~= self.entries@);
        }
        while i > 0
            invariant
                0 <= i <= self.entries@.len(),
                entries_map(self.entries@.take(i as int)).contains_key(username@),
                self@.contains_key(username@),
                entries_map(self.entries@.take(i as int))[username@] == self@[username@],
            decreases i,
        {
            i = i - 1;
            let ghost pre = self.entries@.take(i as int + 1);
            proof {
                assert(pre.drop_last() =~= self.entries@.take(i as int));
                assert(pre.last() == self.entries@[i as int]);
            }
            if self.entries[i].0 == *username {
                return copy_bytes(&self.entries[i].1);
            }
        }
        proof {
            assert(self.entries@.take(0) =~= Seq::<(String, Vec<u8>)>::empty());
            assert(false);
        }
        vstd::pervasive::unreached()
    }

    /// How many entries the store holds, later overrides included.
    pub fn len(&self) -> (r: usize)
        ensures
            r == self.entries@.len(),
    {
        self.entries.len()
    }

    /// A copy of the entry at `i`, in insertion order.
    pub fn entry_at(&self, i: usize) -> (r: (String, Vec<u8>))
        requires
            i < self.entries@.len(),
        ensures
            r.0@ == self.entries@[i as int].0@,
            r.1@ == self.entries@[i as int].1@,
    {
        let name = self.entries[i].0.clone();
        let pass = copy_bytes(&self.entries[i].1);
        (name, pass)
    }
}

} // verus!
