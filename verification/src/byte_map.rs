//! An association map from byte-string keys (canonical paths) to
//! values, modelled as a mathematical `Map`.  It stands for one table
//! of the transactional ordered map that persists the tracker's state,
//! and like that map it keeps its keys in ascending byte order.
use vstd::prelude::*;

use vstd::map::*;

use crate::utils::{bytes_eq, bytes_lt, lex_lt, lemma_lex_lt_ne, lemma_lex_trans, lemma_lex_trichotomy};

verus! {

/// A table of byte-string keys and their values; keys are unique.
pub struct ByteMap<V> {
    entries: Vec<(Vec<u8>, V)>,
}

impl<V> View for ByteMap<V> {
    type V = Map<Seq<u8>, V>;

    closed spec fn view(&self) -> Map<Seq<u8>, V> {
        Map::new(
            |k: Seq<u8>|
                exists|i: int| 0 <= i < self.entries@.len() && self.entries@[i].0@ == k,
            |k: Seq<u8>|
                self.entries@[choose|i: int|
                    0 <= i < self.entries@.len() && self.entries@[i].0@ == k].1,
        )
    }
}

impl<V> ByteMap<V> {
    /// The key of each entry, in table order.
    pub closed spec fn key_seq(&self) -> Seq<Seq<u8>> {
        self.entries@.map_values(|e: (Vec<u8>, V)| e.0@)
    }

    /// Keys are in strictly ascending byte order, so each occurs once.
    /// Established by `new` and preserved by every operation; callers
    /// carry it through their own invariants.
    pub closed spec fn wf(&self) -> bool {
        forall|i: int, j: int|
            0 <= i < j < self.entries@.len() ==> lex_lt(
                self.entries@[i].0@,
                self.entries@[j].0@,
            )
    }

    /// Ordered keys are distinct.
    proof fn lemma_wf_distinct(&self)
        requires
            self.wf(),
        ensures
            forall|i: int, j: int|
                0 <= i < j < self.entries@.len() ==> self.entries@[i].0@
                    != self.entries@[j].0@,
    {
        assert forall|i: int, j: int|
            0 <= i < j < self.entries@.len() implies self.entries@[i].0@
            != self.entries@[j].0@ by {
            lemma_lex_lt_ne(self.entries@[i].0@, self.entries@[j].0@);
        }
    }

    /// The keys enumerate the domain in ascending byte order, without
    /// repetition.
    pub proof fn lemma_key_seq(&self)
        requires
            self.wf(),
        ensures
            forall|i: int, j: int|
                0 <= i < j < self.key_seq().len() ==> lex_lt(
                    self.key_seq()[i],
                    self.key_seq()[j],
                ),
            forall|i: int, j: int|
                0 <= i < j < self.key_seq().len() ==> self.key_seq()[i] != self.key_seq()[j],
            forall|i: int|
                0 <= i < self.key_seq().len() ==> #[trigger] self@.dom().contains(
                    self.key_seq()[i],
                ),
            forall|k: Seq<u8>|
                #[trigger] self@.dom().contains(k) ==> exists|i: int|
                    0 <= i < self.key_seq().len() && self.key_seq()[i] == k,
    {
        self.lemma_wf_distinct();
        assert forall|i: int, j: int|
            0 <= i < j < self.key_seq().len() implies lex_lt(
            self.key_seq()[i],
            self.key_seq()[j],
        ) by {
            assert(self.key_seq()[i] == self.entries@[i].0@);
            assert(self.key_seq()[j] == self.entries@[j].0@);
        }
        assert forall|i: int|
            0 <= i < self.key_seq().len() implies #[trigger] self@.dom().contains(
            self.key_seq()[i],
        ) by {
            assert(self.entries@[i].0@ == self.key_seq()[i]);
        }
        assert forall|k: Seq<u8>| #[trigger] self@.dom().contains(k) implies exists|i: int|
            0 <= i < self.key_seq().len() && self.key_seq()[i] == k by {
            let i = choose|i: int| 0 <= i < self.entries@.len() && self.entries@[i].0@ == k;
            assert(self.key_seq()[i] == k);
        }
    }

    /// An empty table.
    pub fn new() -> (r: ByteMap<V>)
        ensures
            r@ == Map::<Seq<u8>, V>::empty(),
            r.wf(),
    {
        let r = ByteMap { entries: Vec::new() };
        proof {
            assert(r@ =~= Map::<Seq<u8>, V>::empty());
        }
        r
    }

    /// The number of entries, one per key.
    pub fn num_entries(&self) -> (n: usize)
        ensures
            n == self.key_seq().len(),
    {
        self.entries.len()
    }

    /// The key of entry `i`.
    pub fn key_at(&self, i: usize) -> (k: &Vec<u8>)
        requires
            self.wf(),
            i < self.key_seq().len(),
        ensures
            k@ == self.key_seq()[i as int],
            self@.dom().contains(k@),
    {
        proof {
            assert(self.entries@[i as int].0@ == self.key_seq()[i as int]);
        }
        &self.entries[i].0
    }

    /// The value of entry `i`.
    pub fn val_at(&self, i: usize) -> (v: &V)
        requires
            self.wf(),
            i < self.key_seq().len(),
        ensures
            self@.dom().contains(self.key_seq()[i as int]),
            *v == self@[self.key_seq()[i as int]],
    {
        proof {
            self.lemma_wf_distinct();
            let k = self.key_seq()[i as int];
            assert(self.entries@[i as int].0@ == k);
            let w = choose|w: int| 0 <= w < self.entries@.len() && self.entries@[w].0@ == k;
            assert(w == i);
        }
        &self.entries[i].1
    }

    fn find_key(&self, k: &Vec<u8>) -> (r: Option<usize>)
        ensures
            r is Some ==> r->0 < self.entries@.len() && self.entries@[r->0 as int].0@ == k@,
            r is None ==> forall|i: int|
                0 <= i < self.entries@.len() ==> self.entries@[i].0@ != k@,
    {
        let mut i: usize = 0;
        while i < self.entries.len()
            invariant
                i <= self.entries@.len(),
                forall|j: int| 0 <= j < i ==> self.entries@[j].0@ != k@,
            decreases self.entries@.len() - i,
        {
            if bytes_eq(&self.entries[i].0, k) {
                return Some(i);
            }
            i = i + 1;
        }
        None
    }

    /// Whether the table holds `k`.
    pub fn contains_key(&self, k: &Vec<u8>) -> (r: bool)
        requires
            self.wf(),
        ensures
            r == self@.dom().contains(k@),
    {
        match self.find_key(k) {
            Some(i) => {
                proof {
                    assert(self.entries@[i as int].0@ == k@);
                }
                true
            },
            None => {
                proof {
                    if self@.dom().contains(k@) {
                        let w = choose|w: int|
                            0 <= w < self.entries@.len() && self.entries@[w].0@ == k@;
                    }
                }
                false
            },
        }
    }

    /// Looks `k` up.
    pub fn get(&self, k: &Vec<u8>) -> (r: Option<&V>)
        requires
            self.wf(),
        ensures
            r is Some <==> self@.dom().contains(k@),
            r is Some ==> *r->0 == self@[k@],
    {
        match self.find_key(k) {
            Some(i) => {
                proof {
                    self.lemma_wf_distinct();
                    assert(self.entries@[i as int].0@ == k@);
                    let w = choose|w: int|
                        0 <= w < self.entries@.len() && self.entries@[w].0@ == k@;
                    assert(w == i);
                }
                Some(&self.entries[i].1)
            },
            None => {
                proof {
                    if self@.dom().contains(k@) {
                        let w = choose|w: int|
                            0 <= w < self.entries@.len() && self.entries@[w].0@ == k@;
                    }
                }
                None
            },
        }
    }

    /// Removes `k`; reports whether it was present.  The other
    /// entries keep their order.
    pub fn remove(&mut self, k: &Vec<u8>) -> (r: bool)
        requires
            old(self).wf(),
        ensures
            final(self).wf(),
            final(self)@ == old(self)@.remove(k@),
            r == old(self)@.dom().contains(k@),
    {
        proof {
            self.lemma_wf_distinct();
        }
        let ghost pre = self.entries@;
        match self.find_key(k) {
            Some(i) => {
                self.entries.remove(i);
                proof {
                    let post = self.entries@;
                    let n = pre.len();
                    let iv = i as int;
                    assert(post.len() == n - 1);
                    assert forall|a: int, b: int| 0 <= a < b < post.len() implies lex_lt(
                        post[a].0@,
                        post[b].0@,
                    ) by {
                        let ma: int = if a < iv {
                            a
                        } else {
                            a + 1
                        };
                        let mb: int = if b < iv {
                            b
                        } else {
                            b + 1
                        };
                        assert(post[a] == pre[ma] && post[b] == pre[mb]);
                        assert(lex_lt(pre[ma].0@, pre[mb].0@));
                    }
                    assert_maps_equal!(self@, old(self)@.remove(k@), x => {
                        if self@.dom().contains(x) {
                            let j = choose|j: int| 0 <= j < post.len() && post[j].0@ == x;
                            let m: int = if j < iv {
                                j
                            } else {
                                j + 1
                            };
                            assert(post[j] == pre[m]);
                            assert(pre[m].0@ == x);
                            assert(pre[iv].0@ == k@);
                            assert(m != iv);
                            let jw = choose|jw: int| 0 <= jw < post.len() && post[jw].0@ == x;
                            assert(jw == j) by {
                                if jw < j {
                                    assert(lex_lt(post[jw].0@, post[j].0@));
                                    lemma_lex_lt_ne(x, x);
                                } else if j < jw {
                                    assert(lex_lt(post[j].0@, post[jw].0@));
                                    lemma_lex_lt_ne(x, x);
                                }
                            }
                            let mw = choose|mw: int| 0 <= mw < n && pre[mw].0@ == x;
                            assert(mw == m);
                        }
                        if old(self)@.remove(k@).dom().contains(x) {
                            let m = choose|m: int| 0 <= m < n && pre[m].0@ == x;
                            assert(m != iv);
                            let j: int = if m < iv {
                                m
                            } else {
                                m - 1
                            };
                            assert(post[j] == pre[m]);
                            assert(post[j].0@ == x);
                            assert(self@.dom().contains(x));
                        }
                    });
                }
                true
            },
            None => {
                proof {
                    if old(self)@.dom().contains(k@) {
                        let w = choose|w: int| 0 <= w < pre.len() && pre[w].0@ == k@;
                    }
                    assert(self@ =~= old(self)@.remove(k@));
                }
                false
            },
        }
    }

    /// The position where `k` belongs: past every smaller key.
    fn find_pos(&self, k: &Vec<u8>) -> (pos: usize)
        ensures
            pos <= self.entries@.len(),
            forall|j: int| 0 <= j < pos ==> lex_lt(#[trigger] self.entries@[j].0@, k@),
            pos < self.entries@.len() ==> !lex_lt(self.entries@[pos as int].0@, k@),
    {
        let mut j: usize = 0;
        while j < self.entries.len()
            invariant
                j <= self.entries@.len(),
                forall|j0: int| 0 <= j0 < j ==> lex_lt(#[trigger] self.entries@[j0].0@, k@),
            decreases self.entries@.len() - j,
        {
            if !bytes_lt(&self.entries[j].0, k) {
                return j;
            }
            j = j + 1;
        }
        j
    }

    /// Binds `k` to `v`, replacing any previous binding; the key takes
    /// its place in the order.
    pub fn insert(&mut self, k: Vec<u8>, v: V)
        requires
            old(self).wf(),
        ensures
            final(self).wf(),
            final(self)@ == old(self)@.insert(k@, v),
    {
        self.remove(&k);
        let ghost mid = self.entries@;
        let ghost midview = self@;
        proof {
            // the intermediate table no longer holds the key
            if midview.dom().contains(k@) {
                let w = choose|w: int| 0 <= w < mid.len() && mid[w].0@ == k@;
                assert(false);
            }
        }
        let pos = self.find_pos(&k);
        proof {
            // everything at or past the position is above the key
            assert forall|j: int| pos <= j < mid.len() implies lex_lt(
                k@,
                #[trigger] mid[j].0@,
            ) by {
                lemma_lex_trichotomy(mid[pos as int].0@, k@);
                if mid[pos as int].0@ == k@ {
                    assert(midview.dom().contains(k@));
                }
                if j > pos {
                    assert(lex_lt(mid[pos as int].0@, mid[j].0@));
                    lemma_lex_trans(k@, mid[pos as int].0@, mid[j].0@);
                }
            }
        }
        let ghost kv = k@;
        self.entries.insert(pos, (k, v));
        proof {
            let post = self.entries@;
            let n = post.len();
            let pv = pos as int;
            assert(post == mid.insert(pv, post[pv]));
            assert(post[pv].0@ == kv);
            assert forall|a: int, b: int| 0 <= a < b < n implies lex_lt(
                post[a].0@,
                post[b].0@,
            ) by {
                if a < pv && b < pv {
                    assert(post[a] == mid[a] && post[b] == mid[b]);
                } else if a < pv && b == pv {
                    assert(post[a] == mid[a]);
                    assert(lex_lt(mid[a].0@, kv));
                } else if a < pv && b > pv {
                    assert(post[a] == mid[a] && post[b] == mid[b - 1]);
                } else if a == pv {
                    assert(post[b] == mid[b - 1]);
                    assert(lex_lt(kv, mid[b - 1].0@));
                } else {
                    assert(post[a] == mid[a - 1] && post[b] == mid[b - 1]);
                }
            }
            assert(midview == old(self)@.remove(kv));
            assert_maps_equal!(self@, old(self)@.insert(kv, v), x => {
                if self@.dom().contains(x) {
                    let j = choose|j: int| 0 <= j < n && post[j].0@ == x;
                    let jw = choose|jw: int| 0 <= jw < n && post[jw].0@ == x;
                    assert(jw == j) by {
                        if jw < j {
                            assert(lex_lt(post[jw].0@, post[j].0@));
                            lemma_lex_lt_ne(x, x);
                        } else if j < jw {
                            assert(lex_lt(post[j].0@, post[jw].0@));
                            lemma_lex_lt_ne(x, x);
                        }
                    }
                    if x == kv {
                        assert(j == pv) by {
                            if j < pv {
                                assert(post[j] == mid[j]);
                                assert(midview.dom().contains(kv));
                            } else if j > pv {
                                assert(post[j] == mid[j - 1]);
                                assert(midview.dom().contains(kv));
                            }
                        }
                        assert(self@[x] == v);
                    } else {
                        let m: int = if j < pv {
                            j
                        } else {
                            j - 1
                        };
                        assert(j != pv);
                        assert(post[j] == mid[m]);
                        assert(mid[m].0@ == x);
                        assert(midview.dom().contains(x));
                        let mw = choose|mw: int| 0 <= mw < mid.len() && mid[mw].0@ == x;
                        assert(mw == m) by {
                            if mw < m {
                                assert(lex_lt(mid[mw].0@, mid[m].0@));
                                lemma_lex_lt_ne(x, x);
                            } else if m < mw {
                                assert(lex_lt(mid[m].0@, mid[mw].0@));
                                lemma_lex_lt_ne(x, x);
                            }
                        }
                        assert(self@[x] == post[j].1);
                        assert(midview[x] == mid[m].1);
                        assert(old(self)@[x] == midview[x]);
                    }
                }
                if old(self)@.insert(kv, v).dom().contains(x) {
                    if x == kv {
                        assert(post[pv].0@ == x);
                        assert(self@.dom().contains(x));
                    } else {
                        assert(midview.dom().contains(x));
                        let m = choose|m: int| 0 <= m < mid.len() && mid[m].0@ == x;
                        let j: int = if m < pv {
                            m
                        } else {
                            m + 1
                        };
                        assert(post[j] == mid[m]);
                        assert(post[j].0@ == x);
                        assert(self@.dom().contains(x));
                    }
                }
            });
        }
    }
}

} // verus!