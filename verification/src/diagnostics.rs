//! Divergence diagnostics: when the model and the store disagree after a
//! batch, recompute op-level statistics of that batch alone — key-set sizes,
//! the put/delete intersection, and how many of the batch's own put keys
//! each prefix delete covers. Advisory only: nothing here decides the
//! pass/fail outcome.

use vstd::prelude::*;
use crate::order::{bytes_eq, bytes_lt, copy_bytes, lex_lt, lemma_lt_total, lemma_lt_trans};
use crate::ops::{prefixed_keys, Batch, WriteOperation};
use crate::range::key_in_prefix_range;

verus! {

/// Whether some element of `s` is the byte string `k`.
pub open spec fn keys_contain(s: Seq<Vec<u8>>, k: Seq<u8>) -> bool {
    exists|i: int| 0 <= i < s.len() && (#[trigger] s[i])@ == k
}

/// The set that a sequence of byte strings stands for.
pub open spec fn key_set_of(s: Seq<Vec<u8>>) -> Set<Seq<u8>> {
    Set::new(|k: Seq<u8>| keys_contain(s, k))
}

/// Keys sorted strictly ascending.
pub open spec fn sorted_keys(s: Seq<Vec<u8>>) -> bool {
    forall|i: int, j: int| 0 <= i < j < s.len() ==> lex_lt((#[trigger] s[i])@, (#[trigger] s[j])@)
}

/// Distinct sorted keys stand for a set of exactly their number.
proof fn lemma_key_set_card(s: Seq<Vec<u8>>)
    requires
        sorted_keys(s),
    ensures
        key_set_of(s).finite(),
        key_set_of(s).len() == s.len(),
    decreases s.len(),
{
    if s.len() == 0 {
        assert(key_set_of(s) =~= Set::<Seq<u8>>::empty());
    } else {
        let pre = s.drop_last();
        assert forall|i: int, j: int| 0 <= i < j < pre.len() implies lex_lt(
            (#[trigger] pre[i])@,
            (#[trigger] pre[j])@,
        ) by {
            assert(pre[i] == s[i]);
            assert(pre[j] == s[j]);
        }
        lemma_key_set_card(pre);
        let last = s.last()@;
        assert(!key_set_of(pre).contains(last)) by {
            if keys_contain(pre, last) {
                let w = choose|w: int| 0 <= w < pre.len() && (#[trigger] pre[w])@ == last;
                assert(pre[w] == s[w]);
                assert(lex_lt(s[w]@, s.last()@));
                lemma_lt_total(s[w]@, s.last()@);
            }
        }
        assert forall|k: Seq<u8>| keys_contain(s, k) implies keys_contain(pre, k) || k
            == last by {
            let w = choose|w: int| 0 <= w < s.len() && (#[trigger] s[w])@ == k;
            if w < s.len() - 1 {
                assert(pre[w]@ == k);
            }
        }
        assert forall|k: Seq<u8>| keys_contain(pre, k) implies keys_contain(s, k) by {
            let w = choose|w: int| 0 <= w < pre.len() && (#[trigger] pre[w])@ == k;
            assert(s[w]@ == k);
        }
        assert(keys_contain(s, last)) by {
            assert(s[s.len() - 1]@ == last);
        }
        assert(key_set_of(s) =~= key_set_of(pre).insert(last));
    }
}

/// An ordered set of byte-string keys, kept as a sorted vector.
pub struct KeySet {
    keys: Vec<Vec<u8>>,
}

impl View for KeySet {
    type V = Set<Seq<u8>>;

    closed spec fn view(&self) -> Set<Seq<u8>> {
        key_set_of(self.keys@)
    }
}

impl KeySet {
    /// Keys sorted strictly ascending.
    pub closed spec fn wf(self) -> bool {
        sorted_keys(self.keys@)
    }

    /// The empty key set.
    pub fn new() -> (r: KeySet)
        ensures
            r.wf(),
            r@ == Set::<Seq<u8>>::empty(),
    {
        let r = KeySet { keys: Vec::new() };
        proof {
            assert(r@ =~= Set::<Seq<u8>>::empty());
        }
        r
    }

    /// First position whose key is not below `key`.
    fn find_lower(&self, key: &Vec<u8>) -> (idx: usize)
        requires
            self.wf(),
        ensures
            idx <= self.keys@.len(),
            forall|j: int| 0 <= j < idx ==> lex_lt((#[trigger] self.keys@[j])@, key@),
            idx < self.keys@.len() ==> !lex_lt(self.keys@[idx as int]@, key@),
    {
        let n = self.keys.len();
        let mut idx: usize = 0;
        while idx < n
            invariant
                idx <= n,
                n == self.keys@.len(),
                forall|j: int| 0 <= j < idx ==> lex_lt((#[trigger] self.keys@[j])@, key@),
            decreases n - idx,
        {
            if !bytes_lt(&self.keys[idx], key) {
                return idx;
            }
            idx = idx + 1;
        }
        idx
    }

    /// Add a key; a no-op when it is already in.
    pub fn insert(&mut self, key: Vec<u8>)
        requires
            old(self).wf(),
        ensures
            final (self).wf(),
            final (self)@ == old(self)@.insert(key@),
    {
        let ghost s0 = self.keys@;
        let ghost gk: Seq<u8> = key@;
        let idx = self.find_lower(&key);
        if idx < self.keys.len() && bytes_eq(&self.keys[idx], &key) {
            proof {
                assert(keys_contain(s0, gk)) by {
                    assert(s0[idx as int]@ == gk);
                }
                assert(self@ =~= old(self)@.insert(gk));
            }
            return ;
        }
        let ghost gkey = key;
        self.keys.insert(idx, key);
        proof {
            s0.insert_ensures(idx as int, gkey);
            let s2 = self.keys@;
            assert(s2 == s0.insert(idx as int, gkey));
            assert(s2[idx as int] == gkey);
            assert forall|j: int| 0 <= j < idx implies s2[j] == s0[j] by {}
            assert forall|j: int| idx < j < s2.len() implies s2[j] == s0[j - 1] by {
                assert(s0.insert(idx as int, gkey)[j - 1 + 1] == s0[j - 1]);
            }
            if idx < s0.len() {
                assert(s0[idx as int]@ != gk);
                lemma_lt_total(gk, s0[idx as int]@);
            }
            assert forall|a: int, b: int| 0 <= a < b < s2.len() implies lex_lt(
                s2[a]@,
                s2[b]@,
            ) by {
                if b < idx {
                } else if b == idx {
                    assert(s2[a] == s0[a]);
                    assert(lex_lt(s0[a]@, gk));
                } else {
                    assert(s2[b] == s0[b - 1]);
                    if a < idx {
                        assert(s2[a] == s0[a]);
                        assert(lex_lt(s0[a]@, s0[b - 1]@));
                    } else if a == idx {
                        assert(idx < s0.len());
                        if b - 1 == idx {
                            assert(lex_lt(gk, s0[idx as int]@));
                        } else {
                            assert(lex_lt(s0[idx as int]@, s0[b - 1]@));
                            lemma_lt_trans(gk, s0[idx as int]@, s0[b - 1]@);
                        }
                    } else {
                        assert(s2[a] == s0[a - 1]);
                        assert(lex_lt(s0[a - 1]@, s0[b - 1]@));
                    }
                }
            }
            assert forall|k: Seq<u8>| keys_contain(s2, k) implies keys_contain(s0, k) || k
                == gk by {
                let w = choose|w: int| 0 <= w < s2.len() && (#[trigger] s2[w])@ == k;
                if w < idx {
                    assert(s0[w]@ == k);
                } else if w > idx {
                    assert(s0[w - 1]@ == k);
                }
            }
            assert forall|k: Seq<u8>| keys_contain(s0, k) implies keys_contain(s2, k) by {
                let w = choose|w: int| 0 <= w < s0.len() && (#[trigger] s0[w])@ == k;
                if w < idx {
                    assert(s2[w]@ == k);
                } else {
                    assert(s2[w + 1]@ == k);
                }
            }
            assert(keys_contain(s2, gk)) by {
                assert(s2[idx as int]@ == gk);
            }
            assert(self@ =~= old(self)@.insert(gk));
        }
    }

    /// Whether `key` is in the set.
    pub fn contains(&self, key: &Vec<u8>) -> (r: bool)
        requires
            self.wf(),
        ensures
            r == self@.contains(key@),
    {
        let n = self.keys.len();
        let mut i: usize = 0;
        while i < n
            invariant
                i <= n,
                n == self.keys@.len(),
                forall|j: int| 0 <= j < i ==> (#[trigger] self.keys@[j])@ != key@,
            decreases n - i,
        {
            if bytes_eq(&self.keys[i], key) {
                proof {
                    assert(self.keys@[i as int]@ == key@);
                }
                return true;
            }
            i = i + 1;
        }
        proof {
            assert(!keys_contain(self.keys@, key@));
        }
        false
    }

    /// How many keys the set holds.
    pub fn len(&self) -> (r: usize)
        requires
            self.wf(),
        ensures
            r == self@.len(),
            self@.finite(),
    {
        proof {
            lemma_key_set_card(self.keys@);
        }
        self.keys.len()
    }
}

/// The distinct keys that the batch's put operations address.
pub open spec fn put_keys(ops: Seq<WriteOperation>) -> Set<Seq<u8>> {
    Set::new(
        |k: Seq<u8>|
            exists|i: int|
                0 <= i < ops.len() && (#[trigger] ops[i]) is Put && ops[i].target() == k,
    )
}

/// The distinct keys that the batch's point deletes address.
pub open spec fn delete_keys(ops: Seq<WriteOperation>) -> Set<Seq<u8>> {
    Set::new(
        |k: Seq<u8>|
            exists|i: int|
                0 <= i < ops.len() && (#[trigger] ops[i]) is Delete && ops[i].target() == k,
    )
}

/// The distinct prefixes that the batch's prefix deletes address.
pub open spec fn prefix_delete_keys(ops: Seq<WriteOperation>) -> Set<Seq<u8>> {
    Set::new(
        |k: Seq<u8>|
            exists|i: int|
                0 <= i < ops.len() && (#[trigger] ops[i]) is DeletePrefix && ops[i].target() == k,
    )
}

/// How taking one more operation grows the three key sets.
proof fn lemma_key_sets_step(ops: Seq<WriteOperation>, i: int)
    requires
        0 <= i < ops.len(),
    ensures
        put_keys(ops.take(i + 1)) == (if ops[i] is Put {
            put_keys(ops.take(i)).insert(ops[i].target())
        } else {
            put_keys(ops.take(i))
        }),
        delete_keys(ops.take(i + 1)) == (if ops[i] is Delete {
            delete_keys(ops.take(i)).insert(ops[i].target())
        } else {
            delete_keys(ops.take(i))
        }),
        prefix_delete_keys(ops.take(i + 1)) == (if ops[i] is DeletePrefix {
            prefix_delete_keys(ops.take(i)).insert(ops[i].target())
        } else {
            prefix_delete_keys(ops.take(i))
        }),
{
    assert(ops.take(i + 1)[i] == ops[i]);
    assert(forall|w: int| 0 <= w < i ==> ops.take(i + 1)[w] == #[trigger] ops.take(i)[w]);
    assert forall|k: Seq<u8>| #[trigger] put_keys(ops.take(i + 1)).contains(k) implies (if ops[i] is Put {
        put_keys(ops.take(i)).insert(ops[i].target())
    } else {
        put_keys(ops.take(i))
    }).contains(k) by {
        let w = choose|w: int|
            0 <= w < ops.take(i + 1).len() && (#[trigger] ops.take(i + 1)[w]) is Put && ops.take(
                i + 1,
            )[w].target() == k;
        if w < i {
            assert((ops.take(i)[w]) is Put && ops.take(i)[w].target() == k);
        }
    }
    assert forall|k: Seq<u8>|
        (if ops[i] is Put {
            put_keys(ops.take(i)).insert(ops[i].target())
        } else {
            put_keys(ops.take(i))
        }).contains(k) implies #[trigger] put_keys(ops.take(i + 1)).contains(k) by {
        if ops[i] is Put && k == ops[i].target() {
            assert((ops.take(i + 1)[i]) is Put && ops.take(i + 1)[i].target() == k);
        } else {
            let w = choose|w: int|
                0 <= w < ops.take(i).len() && (#[trigger] ops.take(i)[w]) is Put && ops.take(
                    i,
                )[w].target() == k;
            assert((ops.take(i + 1)[w]) is Put && ops.take(i + 1)[w].target() == k);
        }
    }
    assert(put_keys(ops.take(i + 1)) =~= (if ops[i] is Put {
        put_keys(ops.take(i)).insert(ops[i].target())
    } else {
        put_keys(ops.take(i))
    }));
    assert forall|k: Seq<u8>| #[trigger] delete_keys(ops.take(i + 1)).contains(k) implies (if ops[i] is Delete {
        delete_keys(ops.take(i)).insert(ops[i].target())
    } else {
        delete_keys(ops.take(i))
    }).contains(k) by {
        let w = choose|w: int|
            0 <= w < ops.take(i + 1).len() && (#[trigger] ops.take(i + 1)[w]) is Delete
                && ops.take(i + 1)[w].target() == k;
        if w < i {
            assert((ops.take(i)[w]) is Delete && ops.take(i)[w].target() == k);
        }
    }
    assert forall|k: Seq<u8>|
        (if ops[i] is Delete {
            delete_keys(ops.take(i)).insert(ops[i].target())
        } else {
            delete_keys(ops.take(i))
        }).contains(k) implies #[trigger] delete_keys(ops.take(i + 1)).contains(k) by {
        if ops[i] is Delete && k == ops[i].target() {
            assert((ops.take(i + 1)[i]) is Delete && ops.take(i + 1)[i].target() == k);
        } else {
            let w = choose|w: int|
                0 <= w < ops.take(i).len() && (#[trigger] ops.take(i)[w]) is Delete && ops.take(
                    i,
                )[w].target() == k;
            assert((ops.take(i + 1)[w]) is Delete && ops.take(i + 1)[w].target() == k);
        }
    }
    assert(delete_keys(ops.take(i + 1)) =~= (if ops[i] is Delete {
        delete_keys(ops.take(i)).insert(ops[i].target())
    } else {
        delete_keys(ops.take(i))
    }));
    assert forall|k: Seq<u8>| #[trigger] prefix_delete_keys(ops.take(i + 1)).contains(k) implies (if ops[i]
        is DeletePrefix {
        prefix_delete_keys(ops.take(i)).insert(ops[i].target())
    } else {
        prefix_delete_keys(ops.take(i))
    }).contains(k) by {
        let w = choose|w: int|
            0 <= w < ops.take(i + 1).len() && (#[trigger] ops.take(i + 1)[w]) is DeletePrefix
                && ops.take(i + 1)[w].target() == k;
        if w < i {
            assert((ops.take(i)[w]) is DeletePrefix && ops.take(i)[w].target() == k);
        }
    }
    assert forall|k: Seq<u8>|
        (if ops[i] is DeletePrefix {
            prefix_delete_keys(ops.take(i)).insert(ops[i].target())
        } else {
            prefix_delete_keys(ops.take(i))
        }).contains(k) implies #[trigger] prefix_delete_keys(ops.take(i + 1)).contains(k) by {
        if ops[i] is DeletePrefix && k == ops[i].target() {
            assert((ops.take(i + 1)[i]) is DeletePrefix && ops.take(i + 1)[i].target() == k);
        } else {
            let w = choose|w: int|
                0 <= w < ops.take(i).len() && (#[trigger] ops.take(i)[w]) is DeletePrefix
                    && ops.take(i)[w].target() == k;
            assert((ops.take(i + 1)[w]) is DeletePrefix && ops.take(i + 1)[w].target() == k);
        }
    }
    assert(prefix_delete_keys(ops.take(i + 1)) =~= (if ops[i] is DeletePrefix {
        prefix_delete_keys(ops.take(i)).insert(ops[i].target())
    } else {
        prefix_delete_keys(ops.take(i))
    }));
}

/// Op-level statistics of one batch, recomputed on a divergence.
pub struct CollisionStats {
    /// Number of distinct keys put.
    pub n_puts: usize,
    /// Number of distinct keys point-deleted.
    pub n_deletes: usize,
    /// Number of distinct prefixes prefix-deleted.
    pub n_prefix_deletes: usize,
    /// Distinct keys both put and point-deleted in the same batch.
    pub n_put_delete_overlap: usize,
    /// For every deleted prefix: the prefix and how many of the batch's own
    /// put keys fall inside its range.
    pub prefix_put_counts: Vec<(Vec<u8>, usize)>,
}

/// Count how many keys of the sorted `keys` the set `puts` shares with the
/// prefix range of `prefix`.
fn count_puts_in_prefix(puts: &KeySet, prefix: &Vec<u8>) -> (c: usize)
    requires
        puts.wf(),
    ensures
        puts@.intersect(prefixed_keys(prefix@)).finite(),
        c == puts@.intersect(prefixed_keys(prefix@)).len(),
{
    let n = puts.keys.len();
    let mut c: usize = 0;
    let mut j: usize = 0;
    proof {
        assert(key_set_of(puts.keys@.take(0)).intersect(prefixed_keys(prefix@))
            =~= Set::<Seq<u8>>::empty()) by {
            assert forall|k: Seq<u8>| !keys_contain(puts.keys@.take(0), k) by {}
        }
    }
    while j < n
        invariant
            c <= j <= n,
            n == puts.keys@.len(),
            puts.wf(),
            key_set_of(puts.keys@.take(j as int)).intersect(prefixed_keys(prefix@)).finite(),
            c == key_set_of(puts.keys@.take(j as int)).intersect(prefixed_keys(prefix@)).len(),
        decreases n - j,
    {
        let ghost s = puts.keys@;
        let ghost aj = key_set_of(s.take(j as int)).intersect(prefixed_keys(prefix@));
        let hit = key_in_prefix_range(&puts.keys[j], prefix);
        proof {
            assert forall|k: Seq<u8>| keys_contain(s.take(j + 1), k) implies keys_contain(
                s.take(j as int),
                k,
            ) || k == s[j as int]@ by {
                let w = choose|w: int|
                    0 <= w < s.take(j + 1).len() && (#[trigger] s.take(j + 1)[w])@ == k;
                if w < j {
                    assert(s.take(j as int)[w]@ == k);
                }
            }
            assert forall|k: Seq<u8>| keys_contain(s.take(j as int), k) implies keys_contain(
                s.take(j + 1),
                k,
            ) by {
                let w = choose|w: int|
                    0 <= w < s.take(j as int).len() && (#[trigger] s.take(j as int)[w])@ == k;
                assert(s.take(j + 1)[w]@ == k);
            }
            assert(keys_contain(s.take(j + 1), s[j as int]@)) by {
                assert(s.take(j + 1)[j as int]@ == s[j as int]@);
            }
            assert(!keys_contain(s.take(j as int), s[j as int]@)) by {
                if keys_contain(s.take(j as int), s[j as int]@) {
                    let w = choose|w: int|
                        0 <= w < s.take(j as int).len() && (#[trigger] s.take(j as int)[w])@
                            == s[j as int]@;
                    assert(s[w] == s.take(j as int)[w]);
                    assert(lex_lt(s[w]@, s[j as int]@));
                    lemma_lt_total(s[w]@, s[j as int]@);
                }
            }
            if hit {
                assert(key_set_of(s.take(j + 1)).intersect(prefixed_keys(prefix@)) =~= aj.insert(
                    s[j as int]@,
                ));
                assert(!aj.contains(s[j as int]@));
            } else {
                assert(key_set_of(s.take(j + 1)).intersect(prefixed_keys(prefix@)) =~= aj);
            }
        }
        if hit {
            c = c + 1;
        }
        j = j + 1;
    }
    proof {
        assert(puts.keys@.take(n as int) =~= puts.keys@);
    }
    c
}

/// Recompute the batch's op-level statistics: distinct put, delete and
/// prefix-delete key counts, the put/delete key intersection, and for each
/// deleted prefix how many of the batch's put keys its range covers.
pub fn detect_collision(batch: &Batch) -> (r: CollisionStats)
    ensures
        r.n_puts == put_keys(batch.operations@).len(),
        r.n_deletes == delete_keys(batch.operations@).len(),
        r.n_prefix_deletes == prefix_delete_keys(batch.operations@).len(),
        r.n_put_delete_overlap == put_keys(batch.operations@).intersect(
            delete_keys(batch.operations@),
        ).len(),
        r.prefix_put_counts@.len() == prefix_delete_keys(batch.operations@).len(),
        forall|t: int|
            0 <= t < r.prefix_put_counts@.len() ==> prefix_delete_keys(batch.operations@).contains(
                (#[trigger] r.prefix_put_counts@[t]).0@,
            ) && r.prefix_put_counts@[t].1 == put_keys(batch.operations@).intersect(
                prefixed_keys(r.prefix_put_counts@[t].0@),
            ).len(),
        forall|q: Seq<u8>|
            #[trigger] prefix_delete_keys(batch.operations@).contains(q) ==> exists|t: int|
                0 <= t < r.prefix_put_counts@.len() && (#[trigger] r.prefix_put_counts@[t]).0@
                    == q,
{
    let ghost ops = batch.operations@;
    let mut key_puts = KeySet::new();
    let mut key_deletes = KeySet::new();
    let mut key_prefix_deletes = KeySet::new();
    let n = batch.operations.len();
    let mut i: usize = 0;
    proof {
        assert(put_keys(ops.take(0)) =~= Set::<Seq<u8>>::empty()) by {
            assert forall|k: Seq<u8>| !put_keys(ops.take(0)).contains(k) by {}
        }
        assert(delete_keys(ops.take(0)) =~= Set::<Seq<u8>>::empty()) by {
            assert forall|k: Seq<u8>| !delete_keys(ops.take(0)).contains(k) by {}
        }
        assert(prefix_delete_keys(ops.take(0)) =~= Set::<Seq<u8>>::empty()) by {
            assert forall|k: Seq<u8>| !prefix_delete_keys(ops.take(0)).contains(k) by {}
        }
    }
    while i < n
        invariant
            i <= n,
            n == ops.len(),
            ops == batch.operations@,
            key_puts.wf(),
            key_deletes.wf(),
            key_prefix_deletes.wf(),
            key_puts@ == put_keys(ops.take(i as int)),
            key_deletes@ == delete_keys(ops.take(i as int)),
            key_prefix_deletes@ == prefix_delete_keys(ops.take(i as int)),
        decreases n - i,
    {
        proof {
            lemma_key_sets_step(ops, i as int);
        }
        match &batch.operations[i] {
            WriteOperation::Put { key, value: _ } => {
                key_puts.insert(copy_bytes(key));
            },
            WriteOperation::Delete { key } => {
                key_deletes.insert(copy_bytes(key));
            },
            WriteOperation::DeletePrefix { key_prefix } => {
                key_prefix_deletes.insert(copy_bytes(key_prefix));
            },
        }
        i = i + 1;
    }
    proof {
        assert(ops.take(n as int) =~= ops);
    }
    let n_puts = key_puts.len();
    let n_deletes = key_deletes.len();
    let n_prefix_deletes = key_prefix_deletes.len();
    // distinct keys both put and deleted in this batch
    let m = key_puts.keys.len();
    let mut overlap: usize = 0;
    let mut j: usize = 0;
    proof {
        lemma_key_set_card(key_puts.keys@);
        assert(key_set_of(key_puts.keys@.take(0)).intersect(key_deletes@)
            =~= Set::<Seq<u8>>::empty()) by {
            assert forall|k: Seq<u8>| !keys_contain(key_puts.keys@.take(0), k) by {}
        }
    }
    while j < m
        invariant
            overlap <= j <= m,
            m == key_puts.keys@.len(),
            key_puts.wf(),
            key_deletes.wf(),
            key_puts@ == put_keys(ops),
            key_deletes@ == delete_keys(ops),
            ops == batch.operations@,
            key_set_of(key_puts.keys@.take(j as int)).intersect(key_deletes@).finite(),
            overlap == key_set_of(key_puts.keys@.take(j as int)).intersect(key_deletes@).len(),
        decreases m - j,
    {
        let ghost s = key_puts.keys@;
        let ghost aj = key_set_of(s.take(j as int)).intersect(key_deletes@);
        let hit = key_deletes.contains(&key_puts.keys[j]);
        proof {
            assert forall|k: Seq<u8>| keys_contain(s.take(j + 1), k) implies keys_contain(
                s.take(j as int),
                k,
            ) || k == s[j as int]@ by {
                let w = choose|w: int|
                    0 <= w < s.take(j + 1).len() && (#[trigger] s.take(j + 1)[w])@ == k;
                if w < j {
                    assert(s.take(j as int)[w]@ == k);
                }
            }
            assert forall|k: Seq<u8>| keys_contain(s.take(j as int), k) implies keys_contain(
                s.take(j + 1),
                k,
            ) by {
                let w = choose|w: int|
                    0 <= w < s.take(j as int).len() && (#[trigger] s.take(j as int)[w])@ == k;
                assert(s.take(j + 1)[w]@ == k);
            }
            assert(keys_contain(s.take(j + 1), s[j as int]@)) by {
                assert(s.take(j + 1)[j as int]@ == s[j as int]@);
            }
            assert(!keys_contain(s.take(j as int), s[j as int]@)) by {
                if keys_contain(s.take(j as int), s[j as int]@) {
                    let w = choose|w: int|
                        0 <= w < s.take(j as int).len() && (#[trigger] s.take(j as int)[w])@
                            == s[j as int]@;
                    assert(s[w] == s.take(j as int)[w]);
                    assert(lex_lt(s[w]@, s[j as int]@));
                    lemma_lt_total(s[w]@, s[j as int]@);
                }
            }
            if hit {
                assert(key_set_of(s.take(j + 1)).intersect(key_deletes@) =~= aj.insert(
                    s[j as int]@,
                ));
                assert(!aj.contains(s[j as int]@));
            } else {
                assert(key_set_of(s.take(j + 1)).intersect(key_deletes@) =~= aj);
            }
        }
        if hit {
            overlap = overlap + 1;
        }
        j = j + 1;
    }
    proof {
        assert(key_puts.keys@.take(m as int) =~= key_puts.keys@);
    }
    // per-prefix: how many put keys each deleted prefix covers
    let p = key_prefix_deletes.keys.len();
    let mut prefix_put_counts: Vec<(Vec<u8>, usize)> = Vec::new();
    let mut t: usize = 0;
    proof {
        lemma_key_set_card(key_prefix_deletes.keys@);
    }
    while t < p
        invariant
            t <= p,
            p == key_prefix_deletes.keys@.len(),
            key_puts.wf(),
            key_prefix_deletes.wf(),
            key_puts@ == put_keys(ops),
            key_prefix_deletes@ == prefix_delete_keys(ops),
            ops == batch.operations@,
            prefix_put_counts@.len() == t,
            forall|u: int|
                0 <= u < t ==> (#[trigger] prefix_put_counts@[u]).0@
                    == key_prefix_deletes.keys@[u]@ && prefix_put_counts@[u].1 == put_keys(
                    ops,
                ).intersect(prefixed_keys(prefix_put_counts@[u].0@)).len(),
        decreases p - t,
    {
        let prefix = copy_bytes(&key_prefix_deletes.keys[t]);
        let c = count_puts_in_prefix(&key_puts, &prefix);
        prefix_put_counts.push((prefix, c));
        t = t + 1;
    }
    let r = CollisionStats {
        n_puts,
        n_deletes,
        n_prefix_deletes,
        n_put_delete_overlap: overlap,
        prefix_put_counts,
    };
    proof {
        assert forall|u: int| 0 <= u < p implies prefix_delete_keys(ops).contains(
            (#[trigger] r.prefix_put_counts@[u]).0@,
        ) by {
            assert(r.prefix_put_counts@[u].0@ == key_prefix_deletes.keys@[u]@);
            assert(keys_contain(key_prefix_deletes.keys@, key_prefix_deletes.keys@[u]@)) by {
                assert((key_prefix_deletes.keys@[u])@ == key_prefix_deletes.keys@[u]@);
            }
        }
        assert forall|q: Seq<u8>| #[trigger] prefix_delete_keys(ops).contains(q) implies exists|u: int|
            0 <= u < r.prefix_put_counts@.len() && (#[trigger] r.prefix_put_counts@[u]).0@
                == q by {
            assert(key_prefix_deletes@.contains(q));
            assert(keys_contain(key_prefix_deletes.keys@, q));
            let w = choose|w: int|
                0 <= w < key_prefix_deletes.keys@.len() && (#[trigger] key_prefix_deletes.keys@[w])@
                    == q;
            assert(0 <= w < r.prefix_put_counts@.len() && r.prefix_put_counts@[w].0@ == q);
        }
    }
    r
}

} // verus!
