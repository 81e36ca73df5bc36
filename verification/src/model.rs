//! The in-memory reference model: an ordered mapping from byte-string key
//! to byte-string value, kept as an array sorted by the lexicographic key
//! order and mutated by replaying write batches. It is the ground truth
//! that the store's observable content is compared against.

use vstd::prelude::*;
use crate::order::{bytes_eq, bytes_lt, copy_bytes, lex_lt, lemma_lt_total, lemma_lt_trans};
use crate::ops::{apply_op, apply_ops, prefixed_keys, Batch, WriteOperation};
use crate::range::key_in_prefix_range;

verus! {

/// Whether some entry binds key `k`.
pub open spec fn has_key(s: Seq<(Vec<u8>, Vec<u8>)>, k: Seq<u8>) -> bool {
    exists|i: int| 0 <= i < s.len() && (#[trigger] s[i]).0@ == k
}

/// Index of an entry that binds `k`.
pub open spec fn key_idx(s: Seq<(Vec<u8>, Vec<u8>)>, k: Seq<u8>) -> int {
    choose|i: int| 0 <= i < s.len() && (#[trigger] s[i]).0@ == k
}

/// The mapping that a sequence of entries stands for.
pub open spec fn map_of(s: Seq<(Vec<u8>, Vec<u8>)>) -> Map<Seq<u8>, Seq<u8>> {
    Map::new(|k: Seq<u8>| has_key(s, k), |k: Seq<u8>| s[key_idx(s, k)].1@)
}

/// Entries sorted strictly ascending by key.
pub open spec fn sorted_entries(s: Seq<(Vec<u8>, Vec<u8>)>) -> bool {
    forall|i: int, j: int|
        0 <= i < j < s.len() ==> lex_lt((#[trigger] s[i]).0@, (#[trigger] s[j]).0@)
}

/// Sorted entries bind pairwise distinct keys.
pub proof fn lemma_sorted_unique(s: Seq<(Vec<u8>, Vec<u8>)>)
    requires
        sorted_entries(s),
    ensures
        forall|i: int, j: int|
            0 <= i < s.len() && 0 <= j < s.len() && i != j ==> (#[trigger] s[i]).0@ != (
            #[trigger] s[j]).0@,
{
    assert forall|i: int, j: int|
        0 <= i < s.len() && 0 <= j < s.len() && i != j implies (#[trigger] s[i]).0@ != (
    #[trigger] s[j]).0@ by {
        if i < j {
            lemma_lt_total(s[i].0@, s[j].0@);
        } else {
            lemma_lt_total(s[j].0@, s[i].0@);
        }
    }
}

/// The entry `e` repeats an entry of `s0` below `bound` whose key does not
/// begin with `p`.
spec fn entry_from(e: (Vec<u8>, Vec<u8>), s0: Seq<(Vec<u8>, Vec<u8>)>, bound: int, p: Seq<u8>) -> bool {
    exists|m: int|
        0 <= m < bound && e.0@ == (#[trigger] s0[m]).0@ && e.1@ == s0[m].1@ && !p.is_prefix_of(
            s0[m].0@,
        )
}

/// The ordered reference model of the keyspace.
pub struct ReferenceModel {
    entries: Vec<(Vec<u8>, Vec<u8>)>,
}

impl View for ReferenceModel {
    type V = Map<Seq<u8>, Seq<u8>>;

    closed spec fn view(&self) -> Map<Seq<u8>, Seq<u8>> {
        map_of(self.entries@)
    }
}

impl ReferenceModel {
    /// Entries stand sorted strictly ascending by key.
    pub closed spec fn wf(self) -> bool {
        sorted_entries(self.entries@)
    }

    /// The empty model; the replay starts from it.
    pub fn new() -> (r: ReferenceModel)
        ensures
            r.wf(),
            r@ == Map::<Seq<u8>, Seq<u8>>::empty(),
    {
        let r = ReferenceModel { entries: Vec::new() };
        proof {
            assert(r@ =~= Map::<Seq<u8>, Seq<u8>>::empty());
        }
        r
    }

    /// First position whose key is not below `key`; `self.entries.len()`
    /// when every key is below it.
    fn find_lower(&self, key: &Vec<u8>) -> (idx: usize)
        requires
            self.wf(),
        ensures
            idx <= self.entries@.len(),
            forall|j: int| 0 <= j < idx ==> lex_lt((#[trigger] self.entries@[j]).0@, key@),
            idx < self.entries@.len() ==> !lex_lt(self.entries@[idx as int].0@, key@),
    {
        let n = self.entries.len();
        let mut idx: usize = 0;
        while idx < n
            invariant
                idx <= n,
                n == self.entries@.len(),
                self.wf(),
                forall|j: int| 0 <= j < idx ==> lex_lt((#[trigger] self.entries@[j]).0@, key@),
            decreases n - idx,
        {
            if !bytes_lt(&self.entries[idx].0, key) {
                return idx;
            }
            idx = idx + 1;
        }
        idx
    }

    /// The value bound to `key`, if any.
    pub fn get(&self, key: &Vec<u8>) -> (r: Option<&Vec<u8>>)
        requires
            self.wf(),
        ensures
            match r {
                Option::Some(v) => self@.contains_key(key@) && v@ == self@[key@],
                Option::None => !self@.contains_key(key@),
            },
    {
        let n = self.entries.len();
        let mut i: usize = 0;
        while i < n
            invariant
                i <= n,
                n == self.entries@.len(),
                self.wf(),
                forall|j: int| 0 <= j < i ==> (#[trigger] self.entries@[j]).0@ != key@,
            decreases n - i,
        {
            if bytes_eq(&self.entries[i].0, key) {
                proof {
                    let s = self.entries@;
                    lemma_sorted_unique(s);
                    assert(has_key(s, key@));
                    let w = key_idx(s, key@);
                    assert(0 <= w < s.len() && s[w].0@ == key@);
                    assert(w == i as int);
                }
                return Option::Some(&self.entries[i].1);
            }
            i = i + 1;
        }
        proof {
            assert(!has_key(self.entries@, key@));
        }
        Option::None
    }

    /// Whether the model holds no key at all.
    pub fn is_empty(&self) -> (r: bool)
        ensures
            r == (self@ == Map::<Seq<u8>, Seq<u8>>::empty()),
    {
        let r = self.entries.len() == 0;
        proof {
            if r {
                assert(self@ =~= Map::<Seq<u8>, Seq<u8>>::empty());
            } else {
                assert(has_key(self.entries@, self.entries@[0].0@));
                assert(self@.contains_key(self.entries@[0].0@));
            }
        }
        r
    }

    /// Insert or overwrite `key` with `value`.
    pub fn put(&mut self, key: Vec<u8>, value: Vec<u8>)
        requires
            old(self).wf(),
        ensures
            final (self).wf(),
            final (self)@ == old(self)@.insert(key@, value@),
    {
        let ghost gk: Seq<u8> = key@;
        let ghost gv: Seq<u8> = value@;
        let ghost s0 = self.entries@;
        let idx = self.find_lower(&key);
        let replace = idx < self.entries.len() && bytes_eq(&self.entries[idx].0, &key);
        proof {
            lemma_sorted_unique(s0);
        }
        let pair = (key, value);
        let ghost gp = pair;
        if replace {
            let _ = self.entries.remove(idx);
            proof {
                s0.remove_ensures(idx as int);
            }
            self.entries.insert(idx, pair);
            proof {
                let s1 = s0.remove(idx as int);
                s1.insert_ensures(idx as int, gp);
                let s2 = self.entries@;
                assert(s2 == s1.insert(idx as int, gp));
                assert(s2.len() == s0.len());
                assert forall|j: int| 0 <= j < s2.len() && j != idx implies s2[j] == s0[j] by {
                    if j < idx {
                        assert(s2[j] == s1[j]);
                        assert(s1[j] == s0[j]);
                    } else {
                        assert(s2[j] == s1[j - 1]);
                        assert(s1[j - 1] == s0[j]);
                    }
                }
                assert(s2[idx as int] == gp);
                assert(s0[idx as int].0@ == gk);
                assert forall|a: int, b: int| 0 <= a < b < s2.len() implies lex_lt(
                    s2[a].0@,
                    s2[b].0@,
                ) by {
                    assert(s2[a].0@ == s0[a].0@);
                    assert(s2[b].0@ == s0[b].0@);
                }
                self.lemma_view_put(s0, s2, idx as int, gk, gv);
            }
        } else {
            self.entries.insert(idx, pair);
            proof {
                s0.insert_ensures(idx as int, gp);
                let s2 = self.entries@;
                assert(s2 == s0.insert(idx as int, gp));
                assert(s2.len() == s0.len() + 1);
                assert forall|j: int| 0 <= j < idx implies s2[j] == s0[j] by {
                    assert(s2[j] == s0[j]);
                }
                assert(s2[idx as int] == gp);
                assert forall|j: int| idx < j < s2.len() implies s2[j] == s0[j - 1] by {
                    assert(s0.insert(idx as int, gp)[j - 1 + 1] == s0[j - 1]);
                }
                if idx < s0.len() {
                    assert(s0[idx as int].0@ != gk);
                    lemma_lt_total(gk, s0[idx as int].0@);
                    assert(lex_lt(gk, s0[idx as int].0@));
                }
                assert forall|a: int, b: int| 0 <= a < b < s2.len() implies lex_lt(
                    s2[a].0@,
                    s2[b].0@,
                ) by {
                    if b < idx {
                    } else if b == idx {
                        assert(s2[a] == s0[a]);
                        assert(lex_lt(s0[a].0@, gk));
                    } else {
                        assert(s2[b] == s0[b - 1]);
                        if a < idx {
                            assert(s2[a] == s0[a]);
                            assert(lex_lt(s0[a].0@, s0[b - 1].0@));
                        } else if a == idx {
                            assert(idx < s0.len());
                            if b - 1 == idx {
                                assert(lex_lt(gk, s0[idx as int].0@));
                            } else {
                                assert(lex_lt(s0[idx as int].0@, s0[b - 1].0@));
                                lemma_lt_trans(gk, s0[idx as int].0@, s0[b - 1].0@);
                            }
                        } else {
                            assert(s2[a] == s0[a - 1]);
                            assert(lex_lt(s0[a - 1].0@, s0[b - 1].0@));
                        }
                    }
                }
                self.lemma_view_put_fresh(s0, s2, idx as int, gk, gv);
            }
        }
    }

    /// View of a replacement in place: the entry at `idx` changed its value,
    /// every other entry kept.
    proof fn lemma_view_put(self, s0: Seq<(Vec<u8>, Vec<u8>)>, s2: Seq<(Vec<u8>, Vec<u8>)>, idx: int, gk: Seq<u8>, gv: Seq<u8>)
        requires
            sorted_entries(s0),
            sorted_entries(s2),
            s2.len() == s0.len(),
            0 <= idx < s0.len(),
            forall|j: int| 0 <= j < s2.len() && j != idx ==> #[trigger] s2[j] == s0[j],
            s2[idx].0@ == gk,
            s2[idx].1@ == gv,
            s0[idx].0@ == gk,
        ensures
            map_of(s2) == map_of(s0).insert(gk, gv),
    {
        lemma_sorted_unique(s0);
        lemma_sorted_unique(s2);
        let m2 = map_of(s2);
        let target = map_of(s0).insert(gk, gv);
        assert forall|k: Seq<u8>| m2.contains_key(k) implies target.contains_key(k) by {
            let w = key_idx(s2, k);
            assert(0 <= w < s2.len() && s2[w].0@ == k);
            if w != idx {
                assert(s0[w].0@ == k);
                assert(has_key(s0, k));
            }
        }
        assert forall|k: Seq<u8>| target.contains_key(k) implies m2.contains_key(k) by {
            if k == gk {
                assert(s2[idx].0@ == k);
                assert(has_key(s2, k));
            } else {
                let w = key_idx(s0, k);
                assert(0 <= w < s0.len() && s0[w].0@ == k);
                assert(w != idx);
                assert(s2[w].0@ == k);
                assert(has_key(s2, k));
            }
        }
        assert forall|k: Seq<u8>| m2.contains_key(k) implies m2[k] == target[k] by {
            let w = key_idx(s2, k);
            assert(0 <= w < s2.len() && s2[w].0@ == k);
            assert(m2[k] == s2[w].1@);
            if k == gk {
                assert(w == idx);
            } else {
                assert(w != idx);
                assert(s0[w].0@ == k);
                assert(has_key(s0, k));
                let w0 = key_idx(s0, k);
                assert(0 <= w0 < s0.len() && s0[w0].0@ == k);
                assert(w0 == w);
                assert(target[k] == s0[w0].1@);
                assert(s2[w].1@ == s0[w].1@);
            }
        }
        assert(m2 =~= target);
    }

    /// View of an insertion of a fresh key at `idx`: earlier entries kept in
    /// place, later entries shifted right by one.
    proof fn lemma_view_put_fresh(self, s0: Seq<(Vec<u8>, Vec<u8>)>, s2: Seq<(Vec<u8>, Vec<u8>)>, idx: int, gk: Seq<u8>, gv: Seq<u8>)
        requires
            sorted_entries(s0),
            sorted_entries(s2),
            s2.len() == s0.len() + 1,
            0 <= idx <= s0.len(),
            forall|j: int| 0 <= j < idx ==> #[trigger] s2[j] == s0[j],
            forall|j: int| idx < j < s2.len() ==> #[trigger] s2[j] == s0[j - 1],
            s2[idx].0@ == gk,
            s2[idx].1@ == gv,
        ensures
            map_of(s2) == map_of(s0).insert(gk, gv),
    {
        lemma_sorted_unique(s0);
        lemma_sorted_unique(s2);
        let m2 = map_of(s2);
        let target = map_of(s0).insert(gk, gv);
        assert forall|k: Seq<u8>| m2.contains_key(k) implies target.contains_key(k) by {
            let w = key_idx(s2, k);
            assert(0 <= w < s2.len() && s2[w].0@ == k);
            if w < idx {
                assert(s0[w].0@ == k);
                assert(has_key(s0, k));
            } else if w > idx {
                assert(s0[w - 1].0@ == k);
                assert(has_key(s0, k));
            }
        }
        assert forall|k: Seq<u8>| target.contains_key(k) implies m2.contains_key(k) by {
            if k == gk {
                assert(s2[idx].0@ == k);
                assert(has_key(s2, k));
            } else {
                let w = key_idx(s0, k);
                assert(0 <= w < s0.len() && s0[w].0@ == k);
                if w < idx {
                    assert(s2[w].0@ == k);
                } else {
                    assert(s2[w + 1].0@ == k);
                }
                assert(has_key(s2, k));
            }
        }
        assert forall|k: Seq<u8>| m2.contains_key(k) implies m2[k] == target[k] by {
            let w = key_idx(s2, k);
            assert(0 <= w < s2.len() && s2[w].0@ == k);
            assert(m2[k] == s2[w].1@);
            if k == gk {
                assert(w == idx);
            } else {
                assert(w != idx);
                let w0 = if w < idx {
                    w
                } else {
                    w - 1
                };
                assert(s0[w0].0@ == k);
                assert(has_key(s0, k));
                let wc = key_idx(s0, k);
                assert(0 <= wc < s0.len() && s0[wc].0@ == k);
                assert(wc == w0);
                assert(target[k] == s0[wc].1@);
                assert(s2[w].1@ == s0[w0].1@);
            }
        }
        assert(m2 =~= target);
    }

    /// Remove `key` if present; a no-op when it is absent.
    pub fn delete(&mut self, key: &Vec<u8>)
        requires
            old(self).wf(),
        ensures
            final (self).wf(),
            final (self)@ == old(self)@.remove(key@),
    {
        let ghost gk: Seq<u8> = key@;
        let ghost s0 = self.entries@;
        let idx = self.find_lower(key);
        proof {
            lemma_sorted_unique(s0);
        }
        if idx < self.entries.len() && bytes_eq(&self.entries[idx].0, key) {
            let _ = self.entries.remove(idx);
            proof {
                s0.remove_ensures(idx as int);
                let s2 = self.entries@;
                assert(s2 == s0.remove(idx as int));
                assert(s2.len() == s0.len() - 1);
                assert forall|j: int| 0 <= j < idx implies s2[j] == s0[j] by {}
                assert forall|j: int| idx <= j < s2.len() implies s2[j] == s0[j + 1] by {}
                assert forall|a: int, b: int| 0 <= a < b < s2.len() implies lex_lt(
                    s2[a].0@,
                    s2[b].0@,
                ) by {
                    if a < idx && b >= idx {
                        assert(lex_lt(s0[a].0@, s0[b + 1].0@));
                    } else if a >= idx {
                        assert(lex_lt(s0[a + 1].0@, s0[b + 1].0@));
                    }
                }
                let m2 = map_of(s2);
                let target = map_of(s0).remove(gk);
                lemma_sorted_unique(s2);
                assert forall|k: Seq<u8>| m2.contains_key(k) implies target.contains_key(k) by {
                    let w = key_idx(s2, k);
                    assert(0 <= w < s2.len() && s2[w].0@ == k);
                    if w < idx {
                        assert(s0[w].0@ == k);
                    } else {
                        assert(s0[w + 1].0@ == k);
                    }
                    assert(has_key(s0, k));
                    assert(k != gk);
                }
                assert forall|k: Seq<u8>| target.contains_key(k) implies m2.contains_key(k) by {
                    let w = key_idx(s0, k);
                    assert(0 <= w < s0.len() && s0[w].0@ == k);
                    assert(w != idx);
                    if w < idx {
                        assert(s2[w].0@ == k);
                    } else {
                        assert(s2[w - 1].0@ == k);
                    }
                    assert(has_key(s2, k));
                }
                assert forall|k: Seq<u8>| m2.contains_key(k) implies m2[k] == target[k] by {
                    let w = key_idx(s2, k);
                    assert(0 <= w < s2.len() && s2[w].0@ == k);
                    assert(m2[k] == s2[w].1@);
                    let w0 = if w < idx {
                        w
                    } else {
                        w + 1
                    };
                    assert(s0[w0].0@ == k);
                    assert(has_key(s0, k));
                    let wc = key_idx(s0, k);
                    assert(0 <= wc < s0.len() && s0[wc].0@ == k);
                    assert(wc == w0);
                    assert(target[k] == s0[wc].1@);
                    assert(s2[w].1@ == s0[w0].1@);
                }
                assert(m2 =~= target);
            }
        } else {
            proof {
                assert forall|j: int| 0 <= j < s0.len() implies (#[trigger] s0[j]).0@ != gk by {
                    if j < idx {
                        lemma_lt_total(s0[j].0@, gk);
                    } else if j == idx {
                    } else {
                        assert(idx < s0.len());
                        assert(s0[idx as int].0@ != gk);
                        lemma_lt_total(gk, s0[idx as int].0@);
                        assert(lex_lt(gk, s0[idx as int].0@));
                        assert(lex_lt(s0[idx as int].0@, s0[j].0@));
                        lemma_lt_trans(gk, s0[idx as int].0@, s0[j].0@);
                        lemma_lt_total(s0[j].0@, gk);
                    }
                }
                assert(!has_key(s0, gk));
                assert(self@ =~= map_of(s0).remove(gk));
            }
        }
    }

    /// Remove every key that falls in the prefix range of `key_prefix`,
    /// decided through the computed half-open bounds.
    pub fn delete_prefix(&mut self, key_prefix: &Vec<u8>)
        requires
            old(self).wf(),
        ensures
            final (self).wf(),
            final (self)@ == old(self)@.remove_keys(prefixed_keys(key_prefix@)),
    {
        let ghost s0 = self.entries@;
        let ghost p: Seq<u8> = key_prefix@;
        let n = self.entries.len();
        let mut kept: Vec<(Vec<u8>, Vec<u8>)> = Vec::new();
        let mut i: usize = 0;
        while i < n
            invariant
                i <= n,
                n == s0.len(),
                self.entries@ == s0,
                sorted_entries(s0),
                key_prefix@ == p,
                sorted_entries(kept@),
                forall|j: int| 0 <= j < kept@.len() ==> entry_from(#[trigger] kept@[j], s0, i as int, p),
                forall|m: int|
                    0 <= m < i && !p.is_prefix_of((#[trigger] s0[m]).0@) ==> has_key(
                        kept@,
                        s0[m].0@,
                    ),
            decreases n - i,
        {
            let ghost k_old = kept@;
            if !key_in_prefix_range(&self.entries[i].0, key_prefix) {
                let pair = (copy_bytes(&self.entries[i].0), copy_bytes(&self.entries[i].1));
                proof {
                    if k_old.len() > 0 {
                        let j = k_old.len() - 1;
                        assert(entry_from(k_old[j], s0, i as int, p));
                        let m = choose|m: int|
                            0 <= m < i && k_old[j].0@ == (#[trigger] s0[m]).0@ && k_old[j].1@
                                == s0[m].1@ && !p.is_prefix_of(s0[m].0@);
                        assert(lex_lt(s0[m].0@, s0[i as int].0@));
                        assert(lex_lt(k_old[j].0@, s0[i as int].0@));
                    }
                }
                kept.push(pair);
                proof {
                    let kk = kept@;
                    assert(kk == k_old.push(pair));
                    assert(kk[kk.len() - 1].0@ == s0[i as int].0@);
                    assert(kk[kk.len() - 1].1@ == s0[i as int].1@);
                    assert(forall|j: int| 0 <= j < k_old.len() ==> #[trigger] kk[j] == k_old[j]);
                    assert forall|a: int, b: int| 0 <= a < b < kk.len() implies lex_lt(
                        kk[a].0@,
                        kk[b].0@,
                    ) by {
                        if b == kk.len() - 1 {
                            if a < b - 1 {
                                lemma_lt_trans(kk[a].0@, kk[b - 1].0@, kk[b].0@);
                            }
                        }
                    }
                    assert forall|j: int| 0 <= j < kk.len() implies entry_from(
                        #[trigger] kk[j],
                        s0,
                        i + 1,
                        p,
                    ) by {
                        if j == kk.len() - 1 {
                            assert(kk[j].0@ == (s0[i as int]).0@ && kk[j].1@ == s0[i as int].1@
                                && !p.is_prefix_of(s0[i as int].0@));
                        } else {
                            assert(entry_from(k_old[j], s0, i as int, p));
                            let m = choose|m: int|
                                0 <= m < i && k_old[j].0@ == (#[trigger] s0[m]).0@ && k_old[j].1@
                                    == s0[m].1@ && !p.is_prefix_of(s0[m].0@);
                            assert(kk[j].0@ == (s0[m]).0@ && kk[j].1@ == s0[m].1@
                                && !p.is_prefix_of(s0[m].0@));
                        }
                    }
                    assert forall|m: int|
                        0 <= m < i + 1 && !p.is_prefix_of((#[trigger] s0[m]).0@) implies has_key(
                        kk,
                        s0[m].0@,
                    ) by {
                        if m == i as int {
                            assert(kk[kk.len() - 1].0@ == s0[m].0@);
                        } else {
                            assert(has_key(k_old, s0[m].0@));
                            let w = choose|w: int|
                                0 <= w < k_old.len() && (#[trigger] k_old[w]).0@ == s0[m].0@;
                            assert(kk[w].0@ == s0[m].0@);
                        }
                    }
                }
            } else {
                proof {
                    assert(p.is_prefix_of(s0[i as int].0@));
                    assert forall|j: int| 0 <= j < k_old.len() implies entry_from(
                        #[trigger] k_old[j],
                        s0,
                        i + 1,
                        p,
                    ) by {
                        assert(entry_from(k_old[j], s0, i as int, p));
                        let m = choose|m: int|
                            0 <= m < i && k_old[j].0@ == (#[trigger] s0[m]).0@ && k_old[j].1@
                                == s0[m].1@ && !p.is_prefix_of(s0[m].0@);
                        assert(k_old[j].0@ == (s0[m]).0@ && k_old[j].1@ == s0[m].1@
                            && !p.is_prefix_of(s0[m].0@));
                    }
                }
            }
            i = i + 1;
        }
        self.entries = kept;
        proof {
            let s2 = self.entries@;
            lemma_sorted_unique(s0);
            lemma_sorted_unique(s2);
            let m2 = map_of(s2);
            let target = map_of(s0).remove_keys(prefixed_keys(p));
            assert forall|k: Seq<u8>| m2.contains_key(k) implies target.contains_key(k) by {
                let w = key_idx(s2, k);
                assert(0 <= w < s2.len() && s2[w].0@ == k);
                assert(entry_from(s2[w], s0, n as int, p));
                let m = choose|m: int|
                    0 <= m < n && s2[w].0@ == (#[trigger] s0[m]).0@ && s2[w].1@ == s0[m].1@
                        && !p.is_prefix_of(s0[m].0@);
                assert(has_key(s0, k));
                assert(!prefixed_keys(p).contains(k));
            }
            assert forall|k: Seq<u8>| target.contains_key(k) implies m2.contains_key(k) by {
                let w = key_idx(s0, k);
                assert(0 <= w < s0.len() && s0[w].0@ == k);
                assert(!p.is_prefix_of(s0[w].0@));
                assert(has_key(s2, k));
            }
            assert forall|k: Seq<u8>| m2.contains_key(k) implies m2[k] == target[k] by {
                let w = key_idx(s2, k);
                assert(0 <= w < s2.len() && s2[w].0@ == k);
                assert(m2[k] == s2[w].1@);
                assert(entry_from(s2[w], s0, n as int, p));
                let m = choose|m: int|
                    0 <= m < n && s2[w].0@ == (#[trigger] s0[m]).0@ && s2[w].1@ == s0[m].1@
                        && !p.is_prefix_of(s0[m].0@);
                assert(s0[m].0@ == k);
                assert(has_key(s0, k));
                let wc = key_idx(s0, k);
                assert(0 <= wc < s0.len() && s0[wc].0@ == k);
                assert(wc == m);
                assert(target[k] == s0[wc].1@);
            }
            assert(m2 =~= target);
        }
    }

    /// Whether the two models hold exactly the same keys with the same
    /// values; this is the divergence check run after every batch.
    pub fn equals(&self, other: &ReferenceModel) -> (r: bool)
        requires
            self.wf(),
            other.wf(),
        ensures
            r == (self@ == other@),
    {
        let n = self.entries.len();
        let mut i: usize = 0;
        while i < n
            invariant
                i <= n,
                n == self.entries@.len(),
                self.wf(),
                other.wf(),
                forall|j: int|
                    0 <= j < i ==> other@.contains_key((#[trigger] self.entries@[j]).0@)
                        && other@[self.entries@[j].0@] == self.entries@[j].1@,
            decreases n - i,
        {
            proof {
                lemma_sorted_unique(self.entries@);
                assert(has_key(self.entries@, self.entries@[i as int].0@));
                let w = key_idx(self.entries@, self.entries@[i as int].0@);
                assert(0 <= w < self.entries@.len() && self.entries@[w].0@
                    == self.entries@[i as int].0@);
                assert(w == i as int);
                assert(self@[self.entries@[i as int].0@] == self.entries@[i as int].1@);
            }
            match other.get(&self.entries[i].0) {
                Option::Some(v) => {
                    if !bytes_eq(v, &self.entries[i].1) {
                        proof {
                            assert(self@.contains_key(self.entries@[i as int].0@));
                            assert(self@ != other@);
                        }
                        return false;
                    }
                },
                Option::None => {
                    proof {
                        assert(self@.contains_key(self.entries@[i as int].0@));
                        assert(self@ != other@);
                    }
                    return false;
                },
            }
            i = i + 1;
        }
        let m = other.entries.len();
        let mut j: usize = 0;
        while j < m
            invariant
                j <= m,
                m == other.entries@.len(),
                self.wf(),
                other.wf(),
                n == self.entries@.len(),
                forall|j2: int|
                    0 <= j2 < n ==> other@.contains_key((#[trigger] self.entries@[j2]).0@)
                        && other@[self.entries@[j2].0@] == self.entries@[j2].1@,
                forall|j2: int|
                    0 <= j2 < j ==> self@.contains_key((#[trigger] other.entries@[j2]).0@),
            decreases m - j,
        {
            proof {
                lemma_sorted_unique(other.entries@);
                assert(has_key(other.entries@, other.entries@[j as int].0@));
            }
            match self.get(&other.entries[j].0) {
                Option::Some(_) => {},
                Option::None => {
                    proof {
                        assert(other@.contains_key(other.entries@[j as int].0@));
                        assert(self@ != other@);
                    }
                    return false;
                },
            }
            j = j + 1;
        }
        proof {
            assert forall|k: Seq<u8>| self@.contains_key(k) implies other@.contains_key(k)
                && other@[k] == self@[k] by {
                let w = key_idx(self.entries@, k);
                assert(0 <= w < self.entries@.len() && self.entries@[w].0@ == k);
                assert(self@[k] == self.entries@[w].1@);
            }
            assert forall|k: Seq<u8>| other@.contains_key(k) implies self@.contains_key(k) by {
                let w = key_idx(other.entries@, k);
                assert(0 <= w < other.entries@.len() && other.entries@[w].0@ == k);
            }
            assert(self@ =~= other@);
        }
        true
    }
}

/// Apply a whole batch to the model, operation by operation, in order; a
/// prefix delete acts on the state the earlier operations of the same batch
/// left behind, not on a snapshot.
pub fn update_via_batch(kv_state: &mut ReferenceModel, batch: &Batch)
    requires
        old(kv_state).wf(),
    ensures
        final (kv_state).wf(),
        final (kv_state)@ == apply_ops(old(kv_state)@, batch.operations@),
{
    let ghost m0 = kv_state@;
    let ghost ops = batch.operations@;
    let n = batch.operations.len();
    let mut i: usize = 0;
    while i < n
        invariant
            i <= n,
            n == ops.len(),
            ops == batch.operations@,
            kv_state.wf(),
            kv_state@ == apply_ops(m0, ops.take(i as int)),
        decreases n - i,
    {
        let ghost pre = kv_state@;
        match &batch.operations[i] {
            WriteOperation::Put { key, value } => {
                kv_state.put(copy_bytes(key), copy_bytes(value));
            },
            WriteOperation::Delete { key } => {
                kv_state.delete(key);
            },
            WriteOperation::DeletePrefix { key_prefix } => {
                kv_state.delete_prefix(key_prefix);
            },
        }
        proof {
            assert(kv_state@ == apply_op(pre, ops[i as int]));
            assert(ops.take(i + 1).drop_last() =~= ops.take(i as int));
            assert(ops.take(i + 1).last() == ops[i as int]);
        }
        i = i + 1;
    }
    proof {
        assert(ops.take(n as int) =~= ops);
    }
}

} // verus!
