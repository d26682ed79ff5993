use vstd::prelude::*;

verus! {

/// A map from string keys to values that remembers the order in which keys
/// were first inserted. The controller's tables need that order: the gateway
/// election and the placement snapshot break ties by it, and listings keep
/// it. A `HashMap` walks its keys in an order that changes from process to
/// process, and vstd's specification of `HashMap` says nothing useful about
/// `String` keys, whose hashing it does not model; so the entries live in two
/// vectors, with distinct keys as the invariant.
pub struct Table<T> {
    keys: Vec<String>,
    vals: Vec<T>,
}

/// The index of key `k` in `keys`, or -1 when it is absent.
pub open spec fn seq_index_of(keys: Seq<Seq<char>>, k: Seq<char>) -> int
    decreases keys.len(),
{
    if keys.len() == 0 {
        -1
    } else if keys.last() == k {
        keys.len() - 1
    } else {
        seq_index_of(keys.drop_last(), k)
    }
}

pub proof fn lemma_seq_index_of(keys: Seq<Seq<char>>, k: Seq<char>)
    requires
        keys.no_duplicates(),
    ensures
        keys.contains(k) <==> seq_index_of(keys, k) >= 0,
        keys.contains(k) ==> 0 <= seq_index_of(keys, k) < keys.len() && keys[seq_index_of(keys, k)] == k,
        forall|i: int| 0 <= i < keys.len() && keys[i] == k ==> seq_index_of(keys, k) == i,
    decreases keys.len(),
{
    if keys.len() > 0 {
        let d = keys.drop_last();
        assert(d.no_duplicates());
        lemma_seq_index_of(d, k);
        if keys.last() != k {
            assert(keys.contains(k) ==> d.contains(k)) by {
                if keys.contains(k) {
                    let i = choose|i: int| 0 <= i < keys.len() && keys[i] == k;
                    assert(d[i] == k);
                }
            }
            assert(d.contains(k) ==> keys.contains(k)) by {
                if d.contains(k) {
                    let i = choose|i: int| 0 <= i < d.len() && d[i] == k;
                    assert(keys[i] == k);
                }
            }
        } else {
            assert(keys[keys.len() - 1] == k);
        }
    }
}

/// `t1` is `t0` with `v` stored under `k`.
pub open spec fn is_put<T>(t0: &Table<T>, t1: &Table<T>, k: Seq<char>, v: T) -> bool {
    &&& forall|q: Seq<char>| #[trigger] t1.contains(q) == (t0.contains(q) || q == k)
    &&& forall|q: Seq<char>| #[trigger]
        t1.contains(q) ==> t1.at(q) == if q == k {
            v
        } else {
            t0.at(q)
        }
}

impl<T> Table<T> {
    /// The keys, in insertion order.
    pub closed spec fn order(&self) -> Seq<Seq<char>> {
        self.keys@.map_values(|s: String| s@)
    }

    /// The values, in the same order as `order`.
    pub closed spec fn values(&self) -> Seq<T> {
        self.vals@
    }

    pub closed spec fn wf(&self) -> bool {
        &&& self.keys@.len() == self.vals@.len()
        &&& self.order().no_duplicates()
    }

    pub open spec fn len_spec(&self) -> nat {
        self.order().len()
    }

    pub open spec fn contains(&self, k: Seq<char>) -> bool {
        self.order().contains(k)
    }

    /// The value stored under `k`.
    pub open spec fn at(&self, k: Seq<char>) -> T {
        self.values()[seq_index_of(self.order(), k)]
    }

    pub proof fn lemma_wf(&self)
        requires
            self.wf(),
        ensures
            self.order().len() == self.values().len(),
            self.order().no_duplicates(),
    {
    }

    pub fn new() -> (r: Self)
        ensures
            r.wf(),
            r.order() == Seq::<Seq<char>>::empty(),
            r.values() == Seq::<T>::empty(),
    {
        let r = Table { keys: Vec::new(), vals: Vec::new() };
        assert(r.order() =~= Seq::<Seq<char>>::empty());
        r
    }

    pub fn len(&self) -> (r: usize)
        requires
            self.wf(),
        ensures
            r == self.order().len(),
    {
        self.keys.len()
    }

    pub fn key_at(&self, i: usize) -> (r: &String)
        requires
            self.wf(),
            i < self.order().len(),
        ensures
            r@ == self.order()[i as int],
    {
        &self.keys[i]
    }

    pub fn value_at(&self, i: usize) -> (r: &T)
        requires
            self.wf(),
            i < self.order().len(),
        ensures
            *r == self.values()[i as int],
    {
        &self.vals[i]
    }

    /// Position of `k` among the keys.
    pub fn index_of(&self, k: &str) -> (r: Option<usize>)
        requires
            self.wf(),
        ensures
            r == (if self.contains(k@) {
                Some(seq_index_of(self.order(), k@) as usize)
            } else {
                None::<usize>
            }),
            r matches Some(i) ==> i < self.order().len() && self.order()[i as int] == k@,
    {
        proof {
            lemma_seq_index_of(self.order(), k@);
        }
        let target = String::from_str(k);
        let mut i: usize = 0;
        while i < self.keys.len()
            invariant
                self.wf(),
                i <= self.keys@.len(),
                target@ == k@,
                forall|j: int| 0 <= j < i ==> self.order()[j] != k@,
            decreases self.keys@.len() - i,
        {
            assert(self.order()[i as int] == self.keys@[i as int]@);
            if self.keys[i].eq(&target) {
                proof {
                    lemma_seq_index_of(self.order(), k@);
                }
                return Some(i);
            }
            assert(self.order()[i as int] != k@);
            i = i + 1;
        }
        proof {
            lemma_seq_index_of(self.order(), k@);
        }
        None
    }

    pub fn get(&self, k: &str) -> (r: Option<&T>)
        requires
            self.wf(),
        ensures
            r == (if self.contains(k@) {
                Some(&self.at(k@))
            } else {
                None::<&T>
            }),
    {
        proof {
            lemma_seq_index_of(self.order(), k@);
        }
        match self.index_of(k) {
            Some(i) => Some(&self.vals[i]),
            None => None,
        }
    }

    /// Stores `v` under `k`, replacing any earlier value in place.
    pub fn insert(&mut self, k: String, v: T)
        requires
            old(self).wf(),
        ensures
            final(self).wf(),
            old(self).contains(k@) ==> final(self).order() == old(self).order() && final(self).values()
                == old(self).values().update(seq_index_of(old(self).order(), k@), v),
            !old(self).contains(k@) ==> final(self).order() == old(self).order().push(k@)
                && final(self).values() == old(self).values().push(v),
            is_put(old(self), final(self), k@, v),
            forall|q: Seq<char>| #[trigger]
                final(self).contains(q) == (old(self).contains(q) || q == k@),
            forall|q: Seq<char>| #[trigger]
                final(self).contains(q) ==> final(self).at(q) == if q == k@ {
                    v
                } else {
                    old(self).at(q)
                },
    {
        proof {
            lemma_seq_index_of(self.order(), k@);
        }
        match self.index_of(k.as_str()) {
            Some(i) => {
                self.vals.set(i, v);
                assert(self.order() =~= old(self).order());
                assert forall|q: Seq<char>| #[trigger] self.contains(q) implies self.at(q) == if q
                    == k@ {
                    v
                } else {
                    old(self).at(q)
                } by {
                    lemma_seq_index_of(self.order(), q);
                }
            },
            None => {
                let ghost ks = self.order();
                self.keys.push(k);
                self.vals.push(v);
                assert(self.order() =~= ks.push(k@));
                assert(self.order().no_duplicates()) by {
                    assert forall|a: int, b: int|
                        0 <= a < b < self.order().len() implies self.order()[a] != self.order()[b] by {
                        if b == ks.len() {
                            assert(ks[a] == self.order()[a]);
                            assert(ks.contains(ks[a]));
                        }
                    }
                }
                assert forall|q: Seq<char>| #[trigger]
                    self.contains(q) == (old(self).contains(q) || q == k@) by {
                    if old(self).contains(q) {
                        let j = choose|j: int| 0 <= j < ks.len() && ks[j] == q;
                        assert(self.order()[j] == q);
                    }
                    if q == k@ {
                        assert(self.order()[ks.len() as int] == q);
                    }
                    if self.contains(q) && q != k@ {
                        let j = choose|j: int| 0 <= j < self.order().len() && self.order()[j] == q;
                        assert(ks[j] == q);
                    }
                }
                assert forall|q: Seq<char>| #[trigger] self.contains(q) implies self.at(q) == if q
                    == k@ {
                    v
                } else {
                    old(self).at(q)
                } by {
                    lemma_seq_index_of(self.order(), q);
                    lemma_seq_index_of(ks, q);
                    assert(self.order().drop_last() =~= ks);
                }
            },
        }
    }

    /// Removes `k`, keeping the order of the other keys.
    pub fn remove(&mut self, k: &str) -> (r: Option<T>)
        requires
            old(self).wf(),
        ensures
            final(self).wf(),
            old(self).contains(k@) ==> ({
                let i = seq_index_of(old(self).order(), k@);
                &&& r == Some(old(self).values()[i])
                &&& final(self).order() == old(self).order().remove(i)
                &&& final(self).values() == old(self).values().remove(i)
            }),
            !old(self).contains(k@) ==> r is None && final(self).order() == old(self).order()
                && final(self).values() == old(self).values(),
            forall|q: Seq<char>| #[trigger]
                final(self).contains(q) == (old(self).contains(q) && q != k@),
            forall|q: Seq<char>| #[trigger]
                final(self).contains(q) ==> final(self).at(q) == old(self).at(q),
    {
        proof {
            lemma_seq_index_of(self.order(), k@);
        }
        match self.index_of(k) {
            Some(i) => {
                let ghost ks = self.order();
                let _ = self.keys.remove(i);
                let v = self.vals.remove(i);
                assert(self.order() =~= ks.remove(i as int));
                assert(self.order().no_duplicates()) by {
                    assert forall|a: int, b: int|
                        0 <= a < b < self.order().len() implies self.order()[a] != self.order()[b] by {
                        let a2 = if a < i { a } else { a + 1 };
                        let b2 = if b < i { b } else { b + 1 };
                        assert(self.order()[a] == ks[a2]);
                        assert(self.order()[b] == ks[b2]);
                    }
                }
                assert forall|q: Seq<char>| #[trigger]
                    self.contains(q) == (old(self).contains(q) && q != k@) by {
                    if old(self).contains(q) && q != k@ {
                        let j = choose|j: int| 0 <= j < ks.len() && ks[j] == q;
                        assert(j != i);
                        let j2 = if j < i { j } else { j - 1 };
                        assert(self.order()[j2] == q);
                    }
                    if self.contains(q) {
                        let j = choose|j: int| 0 <= j < self.order().len() && self.order()[j] == q;
                        let j2 = if j < i { j } else { j + 1 };
                        assert(ks[j2] == q);
                        assert(j2 != i);
                    }
                }
                assert forall|q: Seq<char>| #[trigger] self.contains(q) implies self.at(q) == old(
                    self,
                ).at(q) by {
                    lemma_seq_index_of(self.order(), q);
                    lemma_seq_index_of(ks, q);
                    let j = seq_index_of(self.order(), q);
                    let j2 = if j < i { j } else { j + 1 };
                    assert(ks[j2] == q);
                }
                Some(v)
            },
            None => None,
        }
    }
}

} // verus!
