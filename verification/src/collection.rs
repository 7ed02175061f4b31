//! An id-unique entity container with stable insertion order: lookup by id,
//! validated construction, and detach-leaving-empty ("take").

use vstd::prelude::*;

use crate::error::{Error, ErrorModel};
use crate::objects::ObjectId;

verus! {

/// All ids of `s` are pairwise distinct.
pub open spec fn ids_unique<T: ObjectId>(s: Seq<T>) -> bool {
    forall|i: int, j: int| 0 <= i < j < s.len() ==> s[i].spec_id() != s[j].spec_id()
}

/// Some earlier element of `s` shares `s[j]`'s id.
pub open spec fn dup_before<T: ObjectId>(s: Seq<T>, j: int) -> bool {
    exists|i: int| 0 <= i < j && s[i].spec_id() == s[j].spec_id()
}

/// `j` is the first position whose id already appeared.
pub open spec fn is_first_dup<T: ObjectId>(s: Seq<T>, j: int) -> bool {
    &&& 0 <= j < s.len()
    &&& dup_before(s, j)
    &&& forall|k: int| 0 <= k < j ==> !dup_before(s, k)
}

/// There is at most one first duplicate position.
pub proof fn lemma_first_dup_unique<T: ObjectId>(s: Seq<T>, j1: int, j2: int)
    requires
        is_first_dup(s, j1),
        is_first_dup(s, j2),
    ensures
        j1 == j2,
{
    if j1 < j2 {
        assert(!dup_before(s, j1));
    }
    if j2 < j1 {
        assert(!dup_before(s, j2));
    }
}

/// An ordered container of objects with pairwise-distinct ids. Construction
/// validates uniqueness; the order of the items is kept as given.
#[derive(Debug)]
pub struct CollectionWithId<T> {
    items: Vec<T>,
}

impl<T: ObjectId> View for CollectionWithId<T> {
    type V = Seq<T>;

    closed spec fn view(&self) -> Seq<T> {
        self.items@
    }
}

impl<T: ObjectId> CollectionWithId<T> {
    /// The container's invariant: no two items share an id.
    pub open spec fn inv(&self) -> bool {
        ids_unique(self@)
    }

    /// Wraps `items`, re-validating id uniqueness. Fails on the first item
    /// whose id already appeared, naming that id.
    pub fn new(items: Vec<T>) -> (r: Result<CollectionWithId<T>, Error>)
        ensures
            match r {
                Ok(c) => ids_unique(items@) && c@ == items@ && c.inv(),
                Err(e) => {
                    &&& !ids_unique(items@)
                    &&& ({
                        let j = choose|j: int| is_first_dup(items@, j);
                        &&& is_first_dup(items@, j)
                        &&& e@ == (ErrorModel::DuplicateIdentifier { id: items@[j].spec_id() })
                    })
                },
            },
    {
        let n = items.len();
        let mut j: usize = 0;
        while j < n
            invariant
                n == items@.len(),
                j <= n,
                forall|k: int| 0 <= k < j ==> !dup_before(items@, k),
            decreases n - j,
        {
            let mut i: usize = 0;
            while i < j
                invariant
                    n == items@.len(),
                    i <= j < n,
                    forall|k: int| 0 <= k < j ==> !dup_before(items@, k),
                    forall|m: int| 0 <= m < i ==> items@[m].spec_id() != items@[j as int].spec_id(),
                decreases j - i,
            {
                if *items[i].id() == *items[j].id() {
                    proof {
                        assert(dup_before(items@, j as int));
                        assert(is_first_dup(items@, j as int));
                        let jj = choose|jj: int| is_first_dup(items@, jj);
                        lemma_first_dup_unique(items@, jj, j as int);
                        assert(!ids_unique(items@));
                    }
                    return Err(Error::DuplicateIdentifier { id: items[j].id().clone() });
                }
                i += 1;
            }
            proof {
                assert(!dup_before(items@, j as int));
            }
            j += 1;
        }
        proof {
            assert forall|a: int, b: int| 0 <= a < b < items@.len() implies items@[a].spec_id()
                != items@[b].spec_id() by {
                assert(!dup_before(items@, b));
            }
        }
        Ok(CollectionWithId { items })
    }

    /// Detaches the items, leaving the container empty.
    pub fn take(&mut self) -> (r: Vec<T>)
        ensures
            r@ == old(self)@,
            final(self)@ == Seq::<T>::empty(),
            final(self).inv(),
    {
        let mut detached: Vec<T> = Vec::new();
        core::mem::swap(&mut self.items, &mut detached);
        proof {
            assert(final(self)@ =~= Seq::<T>::empty());
        }
        detached
    }

    /// The item carrying `id`, if any.
    pub fn get(&self, id: &String) -> (r: Option<&T>)
        ensures
            match r {
                Some(t) => exists|i: int|
                    0 <= i < self@.len() && self@[i].spec_id() == id@ && *t == self@[i],
                None => forall|i: int| 0 <= i < self@.len() ==> self@[i].spec_id() != id@,
            },
    {
        let n = self.items.len();
        let mut i: usize = 0;
        while i < n
            invariant
                n == self@.len(),
                i <= n,
                forall|k: int| 0 <= k < i ==> self@[k].spec_id() != id@,
            decreases n - i,
        {
            if *self.items[i].id() == *id {
                return Some(&self.items[i]);
            }
            i += 1;
        }
        None
    }

    /// The items, in order.
    pub fn values(&self) -> (r: &Vec<T>)
        ensures
            r@ == self@,
    {
        &self.items
    }

    /// How many items the container holds.
    pub fn len(&self) -> (r: usize)
        ensures
            r == self@.len(),
    {
        self.items.len()
    }
}

} // verus!
