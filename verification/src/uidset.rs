//! A set of uids.

use crate::seqs::{views, views_push};
use crate::text::same;
use vstd::prelude::*;

verus! {

broadcast use vstd::string::group_string_axioms;

/// Some uids, none of them twice.
#[derive(Debug)]
pub struct UidSet {
    items: Vec<String>,
}

impl View for UidSet {
    type V = Set<Seq<char>>;

    closed spec fn view(&self) -> Set<Seq<char>> {
        views(self.items@).to_set()
    }
}

impl UidSet {
    /// No uid is there twice.
    pub closed spec fn wf(&self) -> bool {
        views(self.items@).no_duplicates()
    }

    /// The uids in the order in which they came in.
    pub closed spec fn listed(&self) -> Seq<Seq<char>> {
        views(self.items@)
    }

    /// The set with nothing in it.
    pub fn new() -> (r: Self)
        ensures
            r@ == Set::<Seq<char>>::empty(),
            r.wf(),
    {
        let r: UidSet = UidSet { items: Vec::new() };
        proof {
            assert(views(r.items@) =~= Seq::empty());
            assert(views(r.items@).to_set() =~= Set::empty());
        }
        r
    }

    /// The list names exactly the uids of the set.
    pub proof fn list_is_the_set(&self)
        ensures
            self.listed().to_set() == self@,
            self@.finite(),
    {
        vstd::seq_lib::seq_to_set_is_finite(views(self.items@));
    }

    /// How many uids there are.
    pub fn len(&self) -> (r: usize)
        ensures
            r == self.listed().len(),
            self.wf() ==> r == self@.len(),
    {
        proof {
            if self.wf() {
                views(self.items@).unique_seq_to_set();
            }
        }
        self.items.len()
    }

    /// The uid that came in as number `i`.
    pub fn at(&self, i: usize) -> (r: &String)
        requires
            i < self.listed().len(),
        ensures
            r@ == self.listed()[i as int],
            self@.contains(r@),
    {
        proof {
            assert(views(self.items@)[i as int] == self.items@[i as int]@);
            assert(views(self.items@).contains(self.items@[i as int]@));
        }
        &self.items[i]
    }

    fn position(&self, uid: &str) -> (r: Option<usize>)
        ensures
            match r {
                Some(i) => i < self.items@.len() && self.items@[i as int]@ == uid@,
                None => !self@.contains(uid@),
            },
    {
        for i in 0..self.items.len()
            invariant
                forall|j: int| 0 <= j < i ==> (#[trigger] self.items@[j])@ != uid@,
        {
            if same(self.items[i].as_str(), uid) {
                return Some(i);
            }
        }
        proof {
            assert forall|j: int| 0 <= j < views(self.items@).len() implies views(self.items@)[j]
                != uid@ by {
                assert(self.items@[j]@ != uid@);
            }
        }
        None
    }

    /// Whether the uid is there.
    pub fn contains(&self, uid: &str) -> (r: bool)
        ensures
            r == self@.contains(uid@),
    {
        match self.position(uid) {
            Some(i) => {
                proof {
                    assert(views(self.items@)[i as int] == uid@);
                }
                true
            },
            None => false,
        }
    }

    /// Adds a uid; whether it is new.
    pub fn insert(&mut self, uid: String) -> (r: bool)
        ensures
            final(self)@ == old(self)@.insert(uid@),
            r == !old(self)@.contains(uid@),
            old(self).wf() ==> final(self).wf(),
    {
        if self.contains(uid.as_str()) {
            proof {
                assert(self@.insert(uid@) =~= self@);
            }
            return false;
        }
        let ghost before = views(self.items@);
        proof {
            views_push(self.items@, uid);
            assert(before.push(uid@).to_set() =~= before.to_set().insert(uid@)) by {
                assert forall|u: Seq<char>| before.push(uid@).contains(u) implies before.to_set().insert(
                    uid@,
                ).contains(u) by {}
                assert forall|u: Seq<char>| before.to_set().insert(uid@).contains(u) implies before.push(
                    uid@,
                ).contains(u) by {
                    if u == uid@ {
                        assert(before.push(uid@)[before.len() as int] == u);
                    } else {
                        let j = choose|j: int| 0 <= j < before.len() && before[j] == u;
                        assert(before.push(uid@)[j] == u);
                    }
                }
            }
            assert forall|i: int, j: int|
                before.no_duplicates() && 0 <= i < before.push(uid@).len() && 0 <= j < before.push(uid@).len() && i
                    != j implies before.push(uid@)[i] != before.push(uid@)[j] by {
                if i == before.len() {
                    assert(before.contains(before[j]));
                } else if j == before.len() {
                    assert(before.contains(before[i]));
                }
            }
        }
        self.items.push(uid);
        true
    }

    /// Takes a uid out; whether it was there.
    pub fn remove(&mut self, uid: &str) -> (r: bool)
        requires
            old(self).wf(),
        ensures
            final(self)@ == old(self)@.remove(uid@),
            r == old(self)@.contains(uid@),
            final(self).wf(),
    {
        match self.position(uid) {
            Some(i) => {
                let ghost before = views(self.items@);
                let ghost was = self.items@;
                proof {
                    assert(before[i as int] == uid@);
                    assert(views(was.remove(i as int)) =~= before.remove(i as int));
                    let after = before.remove(i as int);
                    assert(after.no_duplicates());
                    assert(after.to_set() =~= before.to_set().remove(uid@)) by {
                        assert forall|u: Seq<char>| after.contains(u) implies before.to_set().remove(
                            uid@,
                        ).contains(u) by {
                            let j = choose|j: int| 0 <= j < after.len() && after[j] == u;
                            if j < i {
                                assert(before[j] == u);
                            } else {
                                assert(before[j + 1] == u);
                            }
                        }
                        assert forall|u: Seq<char>| before.to_set().remove(uid@).contains(u) implies after.contains(
                            u,
                        ) by {
                            let j = choose|j: int| 0 <= j < before.len() && before[j] == u;
                            if j < i {
                                assert(after[j] == u);
                            } else {
                                assert(after[j - 1] == u);
                            }
                        }
                    }
                }
                self.items.remove(i);
                true
            },
            None => {
                proof {
                    assert(self@.remove(uid@) =~= self@);
                }
                false
            },
        }
    }
}

impl Clone for UidSet {
    fn clone(&self) -> (r: Self)
        ensures
            r@ == self@,
            r.wf(),
    {
        let mut r: UidSet = UidSet::new();
        let n: usize = self.len();
        proof {
            self.list_is_the_set();
        }
        for i in 0..n
            invariant
                n == self.listed().len(),
                r.wf(),
                r@ == self.listed().take(i as int).to_set(),
        {
            let u: String = self.at(i).clone();
            proof {
                let l = self.listed();
                assert(l.take(i + 1) =~= l.take(i as int).push(u@));
                l.take(i as int).lemma_push_to_set_commute(u@);
            }
            r.insert(u);
        }
        proof {
            assert(self.listed().take(n as int) =~= self.listed());
        }
        r
    }
}

} // verus!
