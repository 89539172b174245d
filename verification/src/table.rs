//! A small keyed table with text keys.
use vstd::prelude::*;

use crate::text::same_text;

verus! {

/// Values under distinct text keys.
pub struct Table<V> {
    rows: Vec<(String, V)>,
}

impl<V> Table<V> {
    /// The rows, in the order in which their keys were first set.
    pub closed spec fn rows(&self) -> Seq<(String, V)> {
        self.rows@
    }

    /// No key occurs twice.
    pub closed spec fn wf(&self) -> bool {
        forall|i: int, j: int|
            0 <= i < j < self.rows@.len() ==> #[trigger] self.rows@[i].0@
                != #[trigger] self.rows@[j].0@
    }

    spec fn has(&self, key: Seq<char>) -> bool {
        exists|i: int| 0 <= i < self.rows@.len() && #[trigger] self.rows@[i].0@ == key
    }

    spec fn slot(&self, key: Seq<char>) -> int {
        choose|i: int| 0 <= i < self.rows@.len() && #[trigger] self.rows@[i].0@ == key
    }

    /// What is held under each key.
    pub closed spec fn view(&self) -> Map<Seq<char>, V> {
        Map::new(|k: Seq<char>| self.has(k), |k: Seq<char>| self.rows@[self.slot(k)].1)
    }

    proof fn lemma_slot(&self, i: int)
        requires
            self.wf(),
            0 <= i < self.rows@.len(),
        ensures
            self@.contains_key(self.rows@[i].0@),
            self@[self.rows@[i].0@] == self.rows@[i].1,
    {
        let k = self.rows@[i].0@;
        assert(self.has(k));
        let j = self.slot(k);
        if j < i {
            assert(self.rows@[j].0@ != self.rows@[i].0@);
        } else if i < j {
            assert(self.rows@[i].0@ != self.rows@[j].0@);
        }
    }

    /// Every key has a row.
    pub proof fn lemma_key_has_row(&self, key: Seq<char>)
        requires
            self@.contains_key(key),
        ensures
            exists|i: int| 0 <= i < self.rows().len() && #[trigger] self.rows()[i].0@ == key,
    {
        let i = self.slot(key);
        assert(self.rows()[i].0@ == key);
    }

    /// An empty table.
    pub fn new() -> (r: Table<V>)
        ensures
            r.wf(),
            r@ == Map::<Seq<char>, V>::empty(),
    {
        let r: Table<V> = Table { rows: Vec::new() };
        assert(r@ =~= Map::<Seq<char>, V>::empty());
        r
    }

    /// How many rows there are.
    pub fn size(&self) -> (n: usize)
        ensures
            n == self.rows().len(),
    {
        self.rows.len()
    }

    /// The row at position `i`.
    pub fn row(&self, i: usize) -> (r: &(String, V))
        requires
            self.wf(),
            i < self.rows().len(),
        ensures
            *r == self.rows()[i as int],
            self@.contains_key(r.0@),
            self@[r.0@] == r.1,
    {
        proof {
            self.lemma_slot(i as int);
        }
        &self.rows[i]
    }

    fn find(&self, key: &str) -> (r: Option<usize>)
        requires
            self.wf(),
        ensures
            (match r {
                Some(i) => i < self.rows@.len() && self.rows@[i as int].0@ == key@
                    && self@.contains_key(key@) && self@[key@] == self.rows@[i as int].1,
                None => !self@.contains_key(key@),
            }),
    {
        let n: usize = self.rows.len();
        let mut i: usize = 0;
        while i < n
            invariant
                n == self.rows@.len(),
                self.wf(),
                i <= n,
                forall|j: int| 0 <= j < i ==> #[trigger] self.rows@[j].0@ != key@,
            decreases n - i,
        {
            if same_text(self.rows[i].0.as_str(), key) {
                proof {
                    self.lemma_slot(i as int);
                }
                return Some(i);
            }
            i += 1;
        }
        None
    }

    /// What is held under `key`.
    pub fn get(&self, key: &str) -> (r: Option<&V>)
        requires
            self.wf(),
        ensures
            (match r {
                Some(v) => self@.contains_key(key@) && *v == self@[key@],
                None => !self@.contains_key(key@),
            }),
    {
        match self.find(key) {
            Some(i) => Some(&self.rows[i].1),
            None => None,
        }
    }

    /// Holds `value` under `key` from now on.
    pub fn set(&mut self, key: &str, value: V)
        requires
            old(self).wf(),
        ensures
            final(self).wf(),
            final(self)@ == old(self)@.insert(key@, value),
    {
        let ghost before = *self;
        match self.find(key) {
            Some(i) => {
                self.rows[i].1 = value;
            },
            None => {
                self.rows.push((key.to_owned(), value));
                assert forall|i: int, j: int| 0 <= i < j < self.rows@.len() implies
                    #[trigger] self.rows@[i].0@ != #[trigger] self.rows@[j].0@ by {
                    if j == before.rows@.len() {
                        before.lemma_slot(i);
                    }
                }
            },
        }
        proof {
            assert forall|k: Seq<char>| before@.insert(key@, value).contains_key(k)
                <==> self@.contains_key(k) by {
                if before.has(k) {
                    let i = before.slot(k);
                    assert(self.rows@[i].0@ == k);
                }
                if self.has(k) && k != key@ {
                    let i = self.slot(k);
                    assert(before.rows@[i].0@ == k);
                }
                if before.has(key@) {
                    let i = before.slot(key@);
                    assert(self.rows@[i].0@ == key@);
                } else {
                    assert(self.rows@[before.rows@.len() as int].0@ == key@);
                }
            }
            assert forall|k: Seq<char>| self@.contains_key(k) implies #[trigger] self@[k]
                == before@.insert(key@, value)[k] by {
                let i = self.slot(k);
                self.lemma_slot(i);
                if k != key@ {
                    before.lemma_slot(i);
                }
            }
            assert(self@ =~= before@.insert(key@, value));
        }
    }
}

} // verus!
