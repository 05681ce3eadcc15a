//! An association map from `String` keys to values, used for the per-role
//! route table and the per-role coordinator map. Keys are unique; the view is
//! a `Map<Seq<char>, T>`.

use vstd::prelude::*;

verus! {

pub struct StrMap<T> {
    pairs: Vec<(String, T)>,
}

impl<T> View for StrMap<T> {
    type V = Map<Seq<char>, T>;

    closed spec fn view(&self) -> Map<Seq<char>, T> {
        Map::new(
            |k: Seq<char>|
                exists|i: int| 0 <= i < self.pairs@.len() && (#[trigger] self.pairs@[i]).0@ == k,
            |k: Seq<char>|
                self.pairs@[choose|i: int|
                    0 <= i < self.pairs@.len() && (#[trigger] self.pairs@[i]).0@ == k].1,
        )
    }
}

impl<T> StrMap<T> {
    /// Keys are pairwise distinct, so the view determines each entry.
    pub closed spec fn wf(self) -> bool {
        forall|i: int, j: int|
            0 <= i < j < self.pairs@.len() ==> (#[trigger] self.pairs@[i]).0@ != (
            #[trigger] self.pairs@[j]).0@
    }

    proof fn lemma_view_dom(self, k: Seq<char>)
        ensures
            self@.contains_key(k) <==> exists|i: int|
                0 <= i < self.pairs@.len() && (#[trigger] self.pairs@[i]).0@ == k,
    {
    }

    proof fn lemma_entry(self, i: int)
        requires
            self.wf(),
            0 <= i < self.pairs@.len(),
        ensures
            self@.contains_key(self.pairs@[i].0@),
            self@[self.pairs@[i].0@] == self.pairs@[i].1,
    {
        let k = self.pairs@[i].0@;
        assert(self@.contains_key(k));
        let j = choose|j: int| 0 <= j < self.pairs@.len() && (#[trigger] self.pairs@[j]).0@ == k;
        if i < j {
            assert(self.pairs@[i].0@ != self.pairs@[j].0@);
        } else if j < i {
            assert(self.pairs@[j].0@ != self.pairs@[i].0@);
        }
    }

    pub fn new() -> (r: Self)
        ensures
            r.wf(),
            r@ == Map::<Seq<char>, T>::empty(),
    {
        let r = StrMap { pairs: Vec::new() };
        proof {
            assert(r@ =~= Map::<Seq<char>, T>::empty());
        }
        r
    }

    pub fn get<'a>(&'a self, k: &String) -> (r: Option<&'a T>)
        requires
            self.wf(),
        ensures
            match r {
                Some(v) => self@.contains_key(k@) && *v == self@[k@],
                None => !self@.contains_key(k@),
            },
    {
        let n = self.pairs.len();
        let mut i: usize = 0;
        while i < n
            invariant
                n == self.pairs@.len(),
                i <= n,
                self.wf(),
                forall|j: int| 0 <= j < i ==> (#[trigger] self.pairs@[j]).0@ != k@,
            decreases n - i,
        {
            if self.pairs[i].0 == *k {
                proof {
                    self.lemma_entry(i as int);
                }
                return Some(&self.pairs[i].1);
            }
            i += 1;
        }
        proof {
            self.lemma_view_dom(k@);
        }
        None
    }

    /// Removes and returns the entry for `k`, if any.
    pub fn take(&mut self, k: &String) -> (r: Option<T>)
        requires
            old(self).wf(),
        ensures
            final(self).wf(),
            match r {
                Some(v) => {
                    &&& old(self)@.contains_key(k@)
                    &&& v == old(self)@[k@]
                    &&& final(self)@ == old(self)@.remove(k@)
                },
                None => {
                    &&& !old(self)@.contains_key(k@)
                    &&& final(self)@ == old(self)@
                },
            },
    {
        let n = self.pairs.len();
        let mut i: usize = 0;
        while i < n
            invariant
                n == self.pairs@.len(),
                i <= n,
                self.wf(),
                *self == *old(self),
                forall|j: int| 0 <= j < i ==> (#[trigger] self.pairs@[j]).0@ != k@,
            decreases n - i,
        {
            if self.pairs[i].0 == *k {
                proof {
                    self.lemma_entry(i as int);
                }
                let ghost prev = *self;
                let p = self.pairs.swap_remove(i);
                proof {
                    self.lemma_take_view(prev, i as int);
                }
                return Some(p.1);
            }
            i += 1;
        }
        proof {
            self.lemma_view_dom(k@);
        }
        None
    }

    proof fn lemma_take_view(self, prev: Self, i: int)
        requires
            prev.wf(),
            0 <= i < prev.pairs@.len(),
            self.pairs@ == prev.pairs@.update(i, prev.pairs@.last()).drop_last(),
        ensures
            self.wf(),
            self@ == prev@.remove(prev.pairs@[i].0@),
    {
        let n = prev.pairs@.len();
        let k = prev.pairs@[i].0@;
        // each surviving entry is a distinct entry of `prev`
        assert(forall|x: int|
            0 <= x < n - 1 ==> (#[trigger] self.pairs@[x]) == (if x == i {
                prev.pairs@[n - 1]
            } else {
                prev.pairs@[x]
            }));
        assert forall|a: int, b: int| 0 <= a < b < n - 1 implies (#[trigger] self.pairs@[a]).0@ != (
        #[trigger] self.pairs@[b]).0@ by {
            let pa: int = if a == i {
                n - 1
            } else {
                a
            };
            let pb: int = if b == i {
                n - 1
            } else {
                b
            };
            assert(prev.pairs@[pa].0@ != prev.pairs@[pb].0@);
        }
        assert(self@ =~= prev@.remove(k)) by {
            assert forall|k2: Seq<char>| #[trigger] self@.contains_key(k2) implies prev@.remove(
                k,
            ).contains_key(k2) && self@[k2] == prev@.remove(k)[k2] by {
                let x = choose|x: int|
                    0 <= x < self.pairs@.len() && (#[trigger] self.pairs@[x]).0@ == k2;
                let px: int = if x == i {
                    n - 1
                } else {
                    x
                };
                assert(prev.pairs@[px].0@ == k2);
                prev.lemma_entry(px);
                if px == i {
                    assert(false);
                }
                assert(k2 != k) by {
                    if k2 == k {
                        assert(prev.pairs@[px].0@ == prev.pairs@[i].0@);
                        prev.lemma_entry(i);
                    }
                }
                self.lemma_entry(x);
                assert(self@[k2] == self.pairs@[x].1);
                assert(self@[k2] == prev.pairs@[px].1);
            }
            assert forall|k2: Seq<char>| #[trigger] prev@.remove(k).contains_key(k2) implies self@.contains_key(
                k2,
            ) by {
                let x = choose|x: int|
                    0 <= x < prev.pairs@.len() && (#[trigger] prev.pairs@[x]).0@ == k2;
                if x == i {
                    // then k2 == k, excluded from the removed map
                    assert(false);
                } else if x == n - 1 {
                    assert(self.pairs@[i].0@ == k2);
                    assert(i < n - 1) by {
                        if i == n - 1 {
                            assert(prev.pairs@[x].0@ != prev.pairs@[i].0@ || x == i);
                        }
                    }
                } else {
                    assert(self.pairs@[x].0@ == k2);
                }
            }
        }
    }

    /// Inserts `v` under `k`, replacing any earlier entry.
    pub fn insert(&mut self, k: String, v: T)
        requires
            old(self).wf(),
        ensures
            final(self).wf(),
            final(self)@ == old(self)@.insert(k@, v),
    {
        let _dropped = self.take(&k);
        let ghost mid = *self;
        proof {
            assert(mid@ =~= old(self)@.remove(k@));
            self.lemma_view_dom(k@);
        }
        self.pairs.push((k, v));
        proof {
            let n = self.pairs@.len();
            assert forall|a: int, b: int| 0 <= a < b < n implies (#[trigger] self.pairs@[a]).0@ != (
            #[trigger] self.pairs@[b]).0@ by {
                if b == n - 1 {
                    assert(self.pairs@[a] == mid.pairs@[a]);
                }
            }
            assert(self@ =~= old(self)@.insert(k@, v)) by {
                self.lemma_entry(n - 1);
                assert forall|k2: Seq<char>|
                    k2 != k@ && #[trigger] self@.contains_key(k2) implies mid@.contains_key(k2)
                    && self@[k2] == mid@[k2] by {
                    let x = choose|x: int|
                        0 <= x < self.pairs@.len() && (#[trigger] self.pairs@[x]).0@ == k2;
                    assert(x < n - 1);
                    assert(mid.pairs@[x].0@ == k2);
                    mid.lemma_entry(x);
                    self.lemma_entry(x);
                }
                assert forall|k2: Seq<char>|
                    k2 != k@ && #[trigger] mid@.contains_key(k2) implies self@.contains_key(
                    k2,
                ) by {
                    let x = choose|x: int|
                        0 <= x < mid.pairs@.len() && (#[trigger] mid.pairs@[x]).0@ == k2;
                    assert(self.pairs@[x].0@ == k2);
                }
            }
        }
    }

    /// The keys, each once, in the table's own order.
    pub fn keys(&self) -> (r: Vec<String>)
        requires
            self.wf(),
        ensures
            forall|i: int| 0 <= i < r@.len() ==> self@.contains_key((#[trigger] r@[i])@),
            forall|k: Seq<char>|
                #[trigger] self@.contains_key(k) ==> exists|i: int|
                    0 <= i < r@.len() && (#[trigger] r@[i])@ == k,
            forall|i: int, j: int| 0 <= i < j < r@.len() ==> (#[trigger] r@[i])@ != (
            #[trigger] r@[j])@,
    {
        let n = self.pairs.len();
        let mut r: Vec<String> = Vec::new();
        let mut i: usize = 0;
        while i < n
            invariant
                n == self.pairs@.len(),
                i <= n,
                self.wf(),
                r@.len() == i,
                forall|x: int| 0 <= x < i ==> (#[trigger] r@[x])@ == self.pairs@[x].0@,
            decreases n - i,
        {
            r.push(self.pairs[i].0.clone());
            i += 1;
        }
        proof {
            assert forall|x: int| 0 <= x < r@.len() implies self@.contains_key(
                (#[trigger] r@[x])@,
            ) by {
                self.lemma_entry(x);
            }
            assert forall|k: Seq<char>| #[trigger] self@.contains_key(k) implies exists|x: int|
                0 <= x < r@.len() && (#[trigger] r@[x])@ == k by {
                let j = choose|j: int|
                    0 <= j < self.pairs@.len() && (#[trigger] self.pairs@[j]).0@ == k;
                assert(r@[j]@ == k);
            }
        }
        r
    }
}

} // verus!
