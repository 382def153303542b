use vstd::prelude::*;

verus! {

/// A map from task and resource identifiers to priorities.
pub struct IdPrio {
    ids: Vec<String>,
    prios: Vec<u8>,
}

/// The position of the last identifier in `ids` equal to `k`, or -1.
pub open spec fn find(ids: Seq<String>, k: Seq<char>) -> int
    decreases ids.len(),
{
    if ids.len() == 0 {
        -1
    } else if ids.last()@ == k {
        ids.len() - 1
    } else {
        find(ids.drop_last(), k)
    }
}

proof fn lemma_find(ids: Seq<String>, k: Seq<char>)
    ensures
        -1 <= find(ids, k) < ids.len(),
        find(ids, k) >= 0 ==> ids[find(ids, k)]@ == k,
    decreases ids.len(),
{
    if ids.len() > 0 {
        lemma_find(ids.drop_last(), k);
    }
}

impl View for IdPrio {
    type V = Map<Seq<char>, u8>;

    closed spec fn view(&self) -> Map<Seq<char>, u8> {
        Map::new(
            |k: Seq<char>| find(self.ids@, k) >= 0,
            |k: Seq<char>| self.prios@[find(self.ids@, k)],
        )
    }
}

impl IdPrio {
    pub closed spec fn wf(&self) -> bool {
        self.ids@.len() == self.prios@.len()
    }

    /// An empty map.
    pub fn new() -> (r: IdPrio)
        ensures
            r.wf(),
            r@ == Map::<Seq<char>, u8>::empty(),
    {
        let r = IdPrio { ids: Vec::new(), prios: Vec::new() };
        assert(r@ =~= Map::<Seq<char>, u8>::empty());
        r
    }

    /// The position of `id` in the map, if present.
    fn position(&self, id: &String) -> (r: Option<usize>)
        requires
            self.wf(),
        ensures
            match r {
                Some(i) => i as int == find(self.ids@, id@),
                None => find(self.ids@, id@) == -1,
            },
    {
        let mut found: Option<usize> = None;
        let mut i: usize = 0;
        while i < self.ids.len()
            invariant
                i <= self.ids@.len(),
                match found {
                    Some(j) => j as int == find(self.ids@.take(i as int), id@),
                    None => find(self.ids@.take(i as int), id@) == -1,
                },
            decreases self.ids@.len() - i,
        {
            assert(self.ids@.take(i + 1).drop_last() =~= self.ids@.take(i as int));
            if self.ids[i] == *id {
                found = Some(i);
            }
            i = i + 1;
        }
        assert(self.ids@.take(i as int) =~= self.ids@);
        found
    }

    /// The priority recorded for `id`, if any.
    pub fn get(&self, id: &String) -> (r: Option<u8>)
        requires
            self.wf(),
        ensures
            r == (if self@.contains_key(id@) {
                Some(self@[id@])
            } else {
                None
            }),
    {
        proof {
            lemma_find(self.ids@, id@);
        }
        match self.position(id) {
            Some(i) => Some(self.prios[i]),
            None => None,
        }
    }

    /// Records `prio` for `id`, replacing what was recorded before.
    pub fn insert(&mut self, id: String, prio: u8)
        requires
            old(self).wf(),
        ensures
            final(self).wf(),
            final(self)@ == old(self)@.insert(id@, prio),
    {
        let ghost k = id@;
        let ghost m0 = old(self)@;
        proof {
            lemma_find(self.ids@, k);
        }
        match self.position(&id) {
            Some(i) => {
                self.prios.set(i, prio);
                assert forall|k2: Seq<char>| find(self.ids@, k2) == i implies k2 == k by {
                    lemma_find(self.ids@, k2);
                }
                assert forall|k2: Seq<char>| k2 != k && #[trigger] find(self.ids@, k2) >= 0 implies
                    self.prios@[find(self.ids@, k2)] == old(self).prios@[find(self.ids@, k2)] by {
                    lemma_find(self.ids@, k2);
                }
                assert(self@ =~= m0.insert(k, prio));
            },
            None => {
                let ghost ids0 = self.ids@;
                self.ids.push(id);
                self.prios.push(prio);
                assert(self.ids@.drop_last() =~= ids0);
                assert forall|k2: Seq<char>| k2 != k implies #[trigger] find(self.ids@, k2) == find(ids0, k2) by {}
                assert forall|k2: Seq<char>| k2 != k && #[trigger] find(self.ids@, k2) >= 0 implies
                    self.prios@[find(self.ids@, k2)] == old(self).prios@[find(ids0, k2)] by {
                    lemma_find(ids0, k2);
                }
                assert(self@ =~= m0.insert(k, prio));
            },
        }
    }
}

} // verus!
