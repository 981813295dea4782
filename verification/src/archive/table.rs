//! A table from paths to what is known of the files there.

use vstd::prelude::*;

use crate::text::{copy_text, same_text};

verus! {

/// A table from paths to values; a later value for a path replaces an earlier
/// one.
pub struct PathTable<T: View> {
    pub items: Vec<(String, T)>,
}

/// Index of the first item from `i` on with the path `p`.
pub open spec fn item_at<T: View>(s: Seq<(String, T)>, p: Seq<char>, i: int) -> Option<int>
    decreases s.len() - i,
{
    if i >= s.len() {
        None
    } else if s[i].0@ == p {
        Some(i)
    } else {
        item_at(s, p, i + 1)
    }
}

impl<T: View> PathTable<T> {
    /// No path stands twice.
    pub open spec fn wf(self) -> bool {
        forall|i: int, j: int|
            #![trigger self.items@[i], self.items@[j]]
            0 <= i < j < self.items@.len() ==> self.items@[i].0@ != self.items@[j].0@
    }

    /// The value for the path `p`.
    pub open spec fn at(self, p: Seq<char>) -> Option<T::V> {
        match item_at(self.items@, p, 0) {
            Some(i) => Some(self.items@[i].1@),
            None => None,
        }
    }
}

impl<T: View> View for PathTable<T> {
    type V = Map<Seq<char>, T::V>;

    open spec fn view(&self) -> Map<Seq<char>, T::V> {
        Map::new(|p: Seq<char>| self.at(p) is Some, |p: Seq<char>| self.at(p).unwrap())
    }
}

proof fn lemma_item_at<T: View>(s: Seq<(String, T)>, p: Seq<char>, i: int)
    requires
        0 <= i <= s.len(),
    ensures
        match item_at(s, p, i) {
            Some(k) => i <= k < s.len() && s[k].0@ == p,
            None => forall|k: int| i <= k < s.len() ==> (#[trigger] s[k]).0@ != p,
        },
    decreases s.len() - i,
{
    if i < s.len() && s[i].0@ != p {
        lemma_item_at(s, p, i + 1);
    }
}

/// Where no path stands twice, an item with a path is the one that is found.
proof fn lemma_item_is<T: View>(t: PathTable<T>, p: Seq<char>, k: int)
    requires
        t.wf(),
        0 <= k < t.items@.len(),
        t.items@[k].0@ == p,
    ensures
        item_at(t.items@, p, 0) == Some(k),
{
    lemma_item_at(t.items@, p, 0);
}

impl<T: View> PathTable<T> {
    /// An empty table.
    pub fn new() -> (r: Self)
        ensures
            r@ == Map::<Seq<char>, T::V>::empty(),
            r.wf(),
    {
        let r = PathTable { items: Vec::new() };
        proof {
            assert forall|p: Seq<char>| r.at(p) is None by {
                lemma_item_at(r.items@, p, 0);
            }
            assert(r@ =~= Map::<Seq<char>, T::V>::empty());
        }
        r
    }

    fn find(&self, p: &str) -> (r: Option<usize>)
        ensures
            match r {
                Some(i) => i < self.items@.len() && item_at(self.items@, p@, 0) == Some(i as int)
                    && self.items@[i as int].0@ == p@,
                None => item_at(self.items@, p@, 0) is None,
            },
    {
        let mut i: usize = 0;
        while i < self.items.len()
            invariant
                i <= self.items@.len(),
                item_at(self.items@, p@, 0) == item_at(self.items@, p@, i as int),
            decreases self.items@.len() - i,
        {
            if same_text(self.items[i].0.as_str(), p) {
                return Some(i);
            }
            i = i + 1;
        }
        None
    }

    /// The value for the path `p`.
    pub fn get(&self, p: &str) -> (r: Option<&T>)
        ensures
            match r {
                Some(v) => self@.dom().contains(p@) && self@[p@] == v@,
                None => !self@.dom().contains(p@),
            },
    {
        match self.find(p) {
            Some(i) => Some(&self.items[i].1),
            None => None,
        }
    }

    /// Set the value for the path `p`.
    pub fn insert(&mut self, p: &str, v: T)
        requires
            old(self).wf(),
        ensures
            final(self).wf(),
            final(self)@ == old(self)@.insert(p@, v@),
    {
        let ghost was = *self;
        let ghost vv = v@;
        let key = copy_text(p);
        match self.find(p) {
            Some(i) => {
                self.items.set(i, (key, v));
                proof {
                    assert forall|q: Seq<char>| q != p@ implies self.at(q) == was.at(q) by {
                        lemma_item_at(was.items@, q, 0);
                        lemma_item_at(self.items@, q, 0);
                        if let Some(k) = item_at(was.items@, q, 0) {
                            assert(self.items@[k].0@ == q);
                            lemma_item_is(*self, q, k);
                        }
                        if let Some(k) = item_at(self.items@, q, 0) {
                            assert(was.items@[k].0@ == q);
                            lemma_item_is(was, q, k);
                        }
                    }
                    lemma_item_is(*self, p@, i as int);
                }
            },
            None => {
                proof {
                    lemma_item_at(was.items@, p@, 0);
                }
                self.items.push((key, v));
                proof {
                    let n = was.items@.len() as int;
                    assert forall|q: Seq<char>| q != p@ implies self.at(q) == was.at(q) by {
                        lemma_item_at(was.items@, q, 0);
                        lemma_item_at(self.items@, q, 0);
                        if let Some(k) = item_at(was.items@, q, 0) {
                            assert(self.items@[k].0@ == q);
                            lemma_item_is(*self, q, k);
                        }
                        if let Some(k) = item_at(self.items@, q, 0) {
                            assert(k < n);
                            assert(was.items@[k].0@ == q);
                            lemma_item_is(was, q, k);
                        }
                    }
                    lemma_item_is(*self, p@, n);
                }
            },
        }
        proof {
            assert(self@ =~= was@.insert(p@, vv));
        }
    }
}

} // verus!
