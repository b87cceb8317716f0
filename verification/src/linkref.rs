use vstd::prelude::*;

verus! {

/// The mapping an association list stands for: later entries win.
pub open spec fn assoc_map(es: Seq<(String, String)>) -> Map<Seq<char>, Seq<char>>
    decreases es.len(),
{
    if es.len() == 0 {
        Map::empty()
    } else {
        assoc_map(es.drop_last()).insert(es.last().0@, es.last().1@)
    }
}

/// Keys pairwise distinct.
pub open spec fn keys_unique(es: Seq<(String, String)>) -> bool {
    forall|i: int, j: int| 0 <= i < j < es.len() ==> es[i].0@ != es[j].0@
}

/// With distinct keys, the mapping holds exactly the listed pairs.
pub proof fn lemma_assoc_map(es: Seq<(String, String)>)
    requires
        keys_unique(es),
    ensures
        forall|k: Seq<char>|
            assoc_map(es).contains_key(k) <==> exists|i: int| 0 <= i < es.len() && es[i].0@ == k,
        forall|i: int|
            0 <= i < es.len() ==> assoc_map(es).contains_key(#[trigger] es[i].0@) && assoc_map(
                es,
            )[es[i].0@] == es[i].1@,
    decreases es.len(),
{
    if es.len() > 0 {
        let pre = es.drop_last();
        assert(keys_unique(pre)) by {
            assert(forall|i: int, j: int| 0 <= i < j < pre.len() ==> pre[i].0@ != pre[j].0@);
        }
        lemma_assoc_map(pre);
        assert(forall|i: int| 0 <= i < es.len() - 1 ==> pre[i] == es[i]);
        assert forall|i: int| 0 <= i < es.len() implies assoc_map(es).contains_key(
            #[trigger] es[i].0@,
        ) && assoc_map(es)[es[i].0@] == es[i].1@ by {
            if i < es.len() - 1 {
                assert(es[i].0@ != es.last().0@);
                assert(assoc_map(pre).contains_key(pre[i].0@));
            }
        }
        assert forall|k: Seq<char>| assoc_map(es).contains_key(k) implies exists|i: int|
            0 <= i < es.len() && es[i].0@ == k by {
            if k == es.last().0@ {
                assert(es[es.len() - 1].0@ == k);
            } else {
                assert(assoc_map(pre).contains_key(k));
                let i = choose|i: int| 0 <= i < pre.len() && pre[i].0@ == k;
                assert(pre[i] == es[i]);
                assert(es[i].0@ == k);
            }
        }
        assert forall|k: Seq<char>| (exists|i: int| 0 <= i < es.len() && es[i].0@ == k)
            implies assoc_map(es).contains_key(k) by {
            let i = choose|i: int| 0 <= i < es.len() && es[i].0@ == k;
            assert(assoc_map(es).contains_key(es[i].0@));
        }
    }
}

/// The table of link reference definitions of one document: reference
/// names mapped to locations, where a later definition of a name replaces
/// an earlier one.
pub struct LinkRefs {
    entries: Vec<(String, String)>,
}

impl LinkRefs {
    /// The mapping from names to locations.
    pub closed spec fn view(&self) -> Map<Seq<char>, Seq<char>> {
        assoc_map(self.entries@)
    }

    /// The table keeps one entry per name.
    pub closed spec fn wf(&self) -> bool {
        keys_unique(self.entries@)
    }

    /// An empty table.
    pub fn new() -> (r: LinkRefs)
        ensures
            r@ == Map::<Seq<char>, Seq<char>>::empty(),
            r.wf(),
    {
        LinkRefs { entries: Vec::new() }
    }

    /// Records `name -> url`, replacing any earlier definition of `name`.
    pub fn insert(&mut self, name: String, url: String)
        requires
            old(self).wf(),
        ensures
            final(self)@ == old(self)@.insert(name@, url@),
            final(self).wf(),
    {
        let mut i: usize = 0;
        let n = self.entries.len();
        while i < n
            invariant
                n == self.entries@.len(),
                i <= n,
                self.entries@ == old(self).entries@,
                keys_unique(self.entries@),
                forall|j: int| 0 <= j < i ==> self.entries@[j].0@ != name@,
            decreases n - i,
        {
            if self.entries[i].0.eq(&name) {
                let ghost es = self.entries@;
                let _ = self.entries.remove(i);
                self.entries.push((name, url));
                proof {
                    let es2 = es.remove(i as int);
                    let nw = self.entries@;
                    assert(nw.drop_last() =~= es2);
                    assert(nw.last().0@ == name@);
                    assert(nw.last().1@ == url@);
                    assert(es[i as int].0@ == name@);
                    assert(keys_unique(es2)) by {
                        assert(forall|a: int|
                            0 <= a < es2.len() ==> es2[a] == (if a < i {
                                es[a]
                            } else {
                                es[a + 1]
                            }));
                    }
                    assert(forall|a: int|
                        0 <= a < es2.len() ==> (#[trigger] es2[a]) == (if a < i {
                            es[a]
                        } else {
                            es[a + 1]
                        }));
                    assert(forall|a: int| 0 <= a < es2.len() ==> (#[trigger] es2[a]).0@ != name@);
                    assert(keys_unique(nw)) by {
                        assert(forall|a: int| 0 <= a < nw.len() - 1 ==> (#[trigger] nw[a]) == es2[a]);
                    }
                    lemma_assoc_map(es);
                    lemma_assoc_map(nw);
                    assert(assoc_map(nw) == assoc_map(es2).insert(name@, url@));
                    lemma_assoc_map(es2);
                    assert(assoc_map(nw) =~= assoc_map(es).insert(name@, url@)) by {
                        assert forall|k: Seq<char>|
                            assoc_map(nw).contains_key(k) implies assoc_map(es).insert(
                            name@,
                            url@,
                        ).contains_key(k) by {
                            let a = choose|a: int| 0 <= a < nw.len() && nw[a].0@ == k;
                            if a < nw.len() - 1 {
                                assert(nw[a] == es2[a]);
                                if a < i {
                                    assert(es[a].0@ == k);
                                    assert(assoc_map(es).contains_key(es[a].0@));
                                } else {
                                    assert(es[a + 1].0@ == k);
                                    assert(assoc_map(es).contains_key(es[a + 1].0@));
                                }
                            }
                        }
                        assert forall|k: Seq<char>|
                            assoc_map(es).insert(name@, url@).contains_key(k) implies assoc_map(
                            nw,
                        ).contains_key(k) by {
                            if k == name@ {
                                assert(nw[nw.len() - 1].0@ == k);
                            } else {
                                assert(assoc_map(es).contains_key(k));
                                let a = choose|a: int| 0 <= a < es.len() && es[a].0@ == k;
                                assert(a != i);
                                if a < i {
                                    assert(nw[a] == es2[a]);
                                    assert(nw[a].0@ == k);
                                } else {
                                    assert(nw[a - 1] == es2[a - 1]);
                                    assert(es2[a - 1] == es[a]);
                                    assert(nw[a - 1].0@ == k);
                                }
                            }
                        }
                        assert forall|k: Seq<char>|
                            assoc_map(nw).contains_key(k) && assoc_map(es).insert(
                                name@,
                                url@,
                            ).contains_key(k) implies assoc_map(nw)[k] == assoc_map(es).insert(
                            name@,
                            url@,
                        )[k] by {
                            if k == name@ {
                                assert(assoc_map(nw)[nw.last().0@] == nw.last().1@);
                            } else {
                                let a = choose|a: int| 0 <= a < nw.len() && nw[a].0@ == k;
                                assert(assoc_map(nw)[nw[a].0@] == nw[a].1@);
                                assert(a < nw.len() - 1);
                                assert(nw[a] == es2[a]);
                                if a < i {
                                    assert(assoc_map(es)[es[a].0@] == es[a].1@);
                                } else {
                                    assert(assoc_map(es)[es[a + 1].0@] == es[a + 1].1@);
                                }
                            }
                        }
                    }
                }
                return ;
            }
            i = i + 1;
        }
        let ghost es = self.entries@;
        self.entries.push((name, url));
        proof {
            assert(self.entries@.drop_last() =~= es);
            assert(keys_unique(self.entries@)) by {
                assert(forall|a: int| 0 <= a < es.len() ==> #[trigger] self.entries@[a] == es[a]);
                assert(self.entries@.last().0@ == name@);
            }
        }
    }

    /// Looks a name up, returning its recorded location.
    pub fn get(&self, name: &String) -> (r: Option<String>)
        requires
            self.wf(),
        ensures
            match r {
                Some(u) => self@.contains_key(name@) && u@ == self@[name@],
                None => !self@.contains_key(name@),
            },
    {
        let mut i: usize = 0;
        let n = self.entries.len();
        while i < n
            invariant
                n == self.entries@.len(),
                i <= n,
                keys_unique(self.entries@),
                self@ == assoc_map(self.entries@),
                forall|j: int| 0 <= j < i ==> self.entries@[j].0@ != name@,
            decreases n - i,
        {
            if self.entries[i].0.eq(name) {
                let u = self.entries[i].1.clone();
                proof {
                    lemma_assoc_map(self.entries@);
                }
                return Some(u);
            }
            i = i + 1;
        }
        proof {
            lemma_assoc_map(self.entries@);
        }
        None
    }
}

} // verus!
