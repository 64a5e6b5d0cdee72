//! A table of records kept in increasing order of their numeric key: the map
//! from key to record that each contract stores, walked in key order.

use vstd::prelude::*;

verus! {

/// A record that is stored under a numeric key of its own and can be copied.
pub trait Keyed: Sized {
    spec fn key_spec(&self) -> u32;

    fn key(&self) -> (k: u32)
        ensures
            k == self.key_spec(),
    ;

    fn duplicate(&self) -> (r: Self)
        ensures
            r == *self,
    ;
}

/// A condition on records that can be tested.
pub trait RowFilter<T> {
    spec fn keep(&self) -> spec_fn(T) -> bool;

    fn test(&self, x: &T) -> (b: bool)
        ensures
            b == self.keep()(*x),
    ;
}

pub open spec fn key_at<T: Keyed>(s: Seq<T>, i: int) -> u32 {
    s[i].key_spec()
}

/// The keys strictly increase along the sequence.
pub open spec fn sorted<T: Keyed>(s: Seq<T>) -> bool {
    forall|i: int, j: int| 0 <= i < j < s.len() ==> key_at(s, i) < key_at(s, j)
}

pub open spec fn has_key<T: Keyed>(s: Seq<T>, k: u32) -> bool {
    exists|i: int| 0 <= i < s.len() && key_at(s, i) == k
}

/// The record stored under `k`, if any.
pub open spec fn lookup<T: Keyed>(s: Seq<T>, k: u32) -> Option<T> {
    if has_key(s, k) {
        Some(s[choose|i: int| 0 <= i < s.len() && key_at(s, i) == k])
    } else {
        None
    }
}

/// Every key in the sequence is at most `bound`, and none is zero.
pub open spec fn keys_within<T: Keyed>(s: Seq<T>, bound: u32) -> bool {
    forall|i: int| 0 <= i < s.len() ==> 1 <= #[trigger] key_at(s, i) <= bound
}

/// The number of records whose key is below `k`: where a record keyed `k` belongs.
pub open spec fn lower_bound<T: Keyed>(s: Seq<T>, k: u32) -> int
    decreases s.len(),
{
    if s.len() == 0 {
        0
    } else if key_at(s, 0) >= k {
        0
    } else {
        1 + lower_bound(s.drop_first(), k)
    }
}

/// The sequence with `v` stored under its key, replacing what was there.
pub open spec fn put<T: Keyed>(s: Seq<T>, v: T) -> Seq<T> {
    let p = lower_bound(s, v.key_spec());
    if p < s.len() && key_at(s, p) == v.key_spec() {
        s.update(p, v)
    } else {
        s.insert(p, v)
    }
}

/// The sequence without the record keyed `k`.
pub open spec fn drop_key<T: Keyed>(s: Seq<T>, k: u32) -> Seq<T> {
    let p = lower_bound(s, k);
    if p < s.len() && key_at(s, p) == k {
        s.remove(p)
    } else {
        s
    }
}

/// The sequence with each record of `vs` stored in turn, a later one replacing
/// an earlier one with the same key.
pub open spec fn put_all<T: Keyed>(s: Seq<T>, vs: Seq<T>) -> Seq<T>
    decreases vs.len(),
{
    if vs.len() == 0 {
        s
    } else {
        put(put_all(s, vs.drop_last()), vs.last())
    }
}

pub proof fn lemma_lower_bound<T: Keyed>(s: Seq<T>, k: u32)
    requires
        sorted(s),
    ensures
        0 <= lower_bound(s, k) <= s.len(),
        forall|j: int| 0 <= j < lower_bound(s, k) ==> key_at(s, j) < k,
        forall|j: int| lower_bound(s, k) <= j < s.len() ==> key_at(s, j) >= k,
    decreases s.len(),
{
    if s.len() > 0 && key_at(s, 0) < k {
        let t = s.drop_first();
        assert(sorted(t)) by {
            assert forall|i: int, j: int| 0 <= i < j < t.len() implies key_at(t, i) < key_at(t, j) by {
                assert(key_at(t, i) == key_at(s, i + 1));
                assert(key_at(t, j) == key_at(s, j + 1));
            }
        }
        lemma_lower_bound(t, k);
        assert forall|j: int| 0 <= j < lower_bound(s, k) implies key_at(s, j) < k by {
            if j > 0 {
                assert(key_at(s, j) == key_at(t, j - 1));
            }
        }
        assert forall|j: int| lower_bound(s, k) <= j < s.len() implies key_at(s, j) >= k by {
            assert(key_at(s, j) == key_at(t, j - 1));
        }
    } else if s.len() > 0 {
        assert forall|j: int| 0 <= j < s.len() implies key_at(s, j) >= k by {
            if j > 0 {
                assert(key_at(s, 0) < key_at(s, j));
            }
        }
    }
}

/// In a sorted sequence, the record at `i` is the one stored under its key.
pub proof fn lemma_lookup_at<T: Keyed>(s: Seq<T>, i: int)
    requires
        sorted(s),
        0 <= i < s.len(),
    ensures
        lookup(s, key_at(s, i)) == Some(s[i]),
{
    let k = key_at(s, i);
    assert(has_key(s, k));
    let c = choose|c: int| 0 <= c < s.len() && key_at(s, c) == k;
    if c < i {
        assert(key_at(s, c) < key_at(s, i));
    } else if c > i {
        assert(key_at(s, i) < key_at(s, c));
    }
}

/// What is stored under each key determines a sorted sequence.
pub proof fn lemma_lookup_some<T: Keyed>(s: Seq<T>, k: u32)
    requires
        sorted(s),
        lookup(s, k) is Some,
    ensures
        exists|i: int| 0 <= i < s.len() && key_at(s, i) == k && lookup(s, k) == Some(s[i]),
{
    let c = choose|c: int| 0 <= c < s.len() && key_at(s, c) == k;
    lemma_lookup_at(s, c);
}

pub proof fn lemma_put<T: Keyed>(s: Seq<T>, v: T)
    requires
        sorted(s),
    ensures
        sorted(put(s, v)),
        forall|k: u32| #[trigger]
            lookup(put(s, v), k) == if k == v.key_spec() {
                Some(v)
            } else {
                lookup(s, k)
            },
        (forall|j: int| 0 <= j < s.len() ==> key_at(s, j) < v.key_spec()) ==> put(s, v) == s.push(
            v,
        ),
        put(s, v).len() == if has_key(s, v.key_spec()) {
            s.len()
        } else {
            s.len() + 1
        },
{
    let k = v.key_spec();
    lemma_lower_bound(s, k);
    let p = lower_bound(s, k);
    let r = put(s, v);
    if p < s.len() && key_at(s, p) == k {
        assert(has_key(s, k));
        assert(r == s.update(p, v));
        assert(forall|j: int| 0 <= j < r.len() && j != p ==> r[j] == s[j]);
        assert(sorted(r)) by {
            assert forall|i: int, j: int| 0 <= i < j < r.len() implies key_at(r, i) < key_at(r, j) by {
                assert(key_at(r, p) == k);
                if i == p {
                    assert(key_at(r, j) == key_at(s, j));
                    assert(key_at(s, p) < key_at(s, j));
                } else if j == p {
                    assert(key_at(r, i) == key_at(s, i));
                    assert(key_at(s, i) < key_at(s, p));
                } else {
                    assert(key_at(r, i) == key_at(s, i));
                    assert(key_at(r, j) == key_at(s, j));
                }
            }
        }
        assert forall|k2: u32| #[trigger]
            lookup(r, k2) == if k2 == k {
                Some(v)
            } else {
                lookup(s, k2)
            } by {
            if k2 == k {
                lemma_lookup_at(r, p);
            } else if has_key(s, k2) {
                let c = choose|c: int| 0 <= c < s.len() && key_at(s, c) == k2;
                lemma_lookup_at(s, c);
                lemma_lookup_at(r, c);
            } else {
                if has_key(r, k2) {
                    let c = choose|c: int| 0 <= c < r.len() && key_at(r, c) == k2;
                    assert(key_at(s, c) == k2);
                }
            }
        }
        if forall|j: int| 0 <= j < s.len() ==> key_at(s, j) < k {
            assert(key_at(s, p) < k);
        }
    } else {
        assert(!has_key(s, k)) by {
            if has_key(s, k) {
                let c = choose|c: int| 0 <= c < s.len() && key_at(s, c) == k;
                if c < p {
                    assert(key_at(s, c) < k);
                } else if c > p {
                    assert(key_at(s, p) < key_at(s, c));
                }
            }
        }
        assert(r == s.insert(p, v));
        assert(forall|j: int| 0 <= j < p ==> r[j] == s[j]);
        assert(r[p] == v);
        assert(forall|j: int| p < j < r.len() ==> r[j] == s[j - 1]);
        assert(sorted(r)) by {
            assert forall|i: int, j: int| 0 <= i < j < r.len() implies key_at(r, i) < key_at(r, j) by {
                assert(key_at(r, p) == k);
                if i < p && j < p {
                    assert(key_at(r, i) == key_at(s, i));
                    assert(key_at(r, j) == key_at(s, j));
                } else if i < p && j == p {
                    assert(key_at(r, i) == key_at(s, i));
                } else if i < p {
                    assert(key_at(r, i) == key_at(s, i));
                    assert(key_at(r, j) == key_at(s, j - 1));
                    assert(key_at(s, j - 1) >= k);
                } else if i == p {
                    assert(key_at(r, j) == key_at(s, j - 1));
                    assert(key_at(s, j - 1) >= k);
                    assert(key_at(s, j - 1) != k);
                } else {
                    assert(key_at(r, i) == key_at(s, i - 1));
                    assert(key_at(r, j) == key_at(s, j - 1));
                }
            }
        }
        assert forall|k2: u32| #[trigger]
            lookup(r, k2) == if k2 == k {
                Some(v)
            } else {
                lookup(s, k2)
            } by {
            if k2 == k {
                lemma_lookup_at(r, p);
            } else if has_key(s, k2) {
                let c = choose|c: int| 0 <= c < s.len() && key_at(s, c) == k2;
                lemma_lookup_at(s, c);
                if c < p {
                    lemma_lookup_at(r, c);
                } else {
                    assert(r[c + 1] == s[c]);
                    lemma_lookup_at(r, c + 1);
                }
            } else {
                if has_key(r, k2) {
                    let c = choose|c: int| 0 <= c < r.len() && key_at(r, c) == k2;
                    if c < p {
                        assert(key_at(s, c) == k2);
                    } else if c > p {
                        assert(key_at(s, c - 1) == k2);
                    }
                }
            }
        }
        if forall|j: int| 0 <= j < s.len() ==> key_at(s, j) < k {
            if p < s.len() {
                assert(key_at(s, p) < k);
            }
            assert(p == s.len());
            assert(r =~= s.push(v));
        }
    }
}

pub proof fn lemma_drop_key<T: Keyed>(s: Seq<T>, k: u32)
    requires
        sorted(s),
    ensures
        sorted(drop_key(s, k)),
        forall|k2: u32| #[trigger]
            lookup(drop_key(s, k), k2) == if k2 == k {
                None
            } else {
                lookup(s, k2)
            },
        drop_key(s, k).len() == if has_key(s, k) {
            s.len() - 1
        } else {
            s.len() as int
        },
{
    lemma_lower_bound(s, k);
    let p = lower_bound(s, k);
    let r = drop_key(s, k);
    if p < s.len() && key_at(s, p) == k {
        assert(has_key(s, k));
        assert(r == s.remove(p));
        assert(forall|j: int| 0 <= j < p ==> r[j] == s[j]);
        assert(forall|j: int| p <= j < r.len() ==> r[j] == s[j + 1]);
        assert(sorted(r)) by {
            assert forall|i: int, j: int| 0 <= i < j < r.len() implies key_at(r, i) < key_at(r, j) by {
                if j < p {
                    assert(key_at(r, i) == key_at(s, i));
                    assert(key_at(r, j) == key_at(s, j));
                } else if i < p {
                    assert(key_at(r, i) == key_at(s, i));
                    assert(key_at(r, j) == key_at(s, j + 1));
                } else {
                    assert(key_at(r, i) == key_at(s, i + 1));
                    assert(key_at(r, j) == key_at(s, j + 1));
                }
            }
        }
        assert forall|k2: u32| #[trigger]
            lookup(r, k2) == if k2 == k {
                None
            } else {
                lookup(s, k2)
            } by {
            if has_key(r, k2) {
                let c = choose|c: int| 0 <= c < r.len() && key_at(r, c) == k2;
                if c < p {
                    assert(key_at(s, c) == k2);
                    assert(key_at(s, c) < k);
                    lemma_lookup_at(s, c);
                    lemma_lookup_at(r, c);
                } else {
                    assert(key_at(s, c + 1) == k2);
                    assert(key_at(s, p) < key_at(s, c + 1));
                    lemma_lookup_at(s, c + 1);
                    lemma_lookup_at(r, c);
                }
            } else if has_key(s, k2) {
                let c = choose|c: int| 0 <= c < s.len() && key_at(s, c) == k2;
                if c < p {
                    assert(key_at(r, c) == k2);
                } else if c > p {
                    assert(key_at(r, c - 1) == k2);
                } else {
                    assert(k2 == k);
                }
            }
        }
    } else {
        assert(!has_key(s, k)) by {
            if has_key(s, k) {
                let c = choose|c: int| 0 <= c < s.len() && key_at(s, c) == k;
                if c < p {
                    assert(key_at(s, c) < k);
                } else if c > p {
                    assert(key_at(s, p) < key_at(s, c));
                }
            }
        }
    }
}

/// The records kept from a sorted sequence stay sorted.
pub proof fn lemma_filter_sorted<T: Keyed>(s: Seq<T>, keep: spec_fn(T) -> bool)
    requires
        sorted(s),
    ensures
        sorted(s.filter(keep)),
        forall|i: int|
            #![trigger s.filter(keep)[i]]
            0 <= i < s.filter(keep).len() ==> exists|j: int|
                #![trigger s[j]]
                0 <= j < s.len() && s.filter(keep)[i] == s[j],
    decreases s.len(),
{
    reveal_with_fuel(Seq::filter, 1);
    if s.len() > 0 {
        let t = s.drop_last();
        assert(sorted(t)) by {
            assert forall|i: int, j: int| 0 <= i < j < t.len() implies key_at(t, i) < key_at(t, j) by {
                assert(key_at(t, i) == key_at(s, i));
                assert(key_at(t, j) == key_at(s, j));
            }
        }
        lemma_filter_sorted(t, keep);
        let ft = t.filter(keep);
        let f = s.filter(keep);
        assert forall|i: int| #![trigger f[i]] 0 <= i < f.len() implies exists|j: int|
            #![trigger s[j]]
            0 <= j < s.len() && f[i] == s[j] by {
            if i < ft.len() {
                assert(ft[i] == ft[i]);
                let j = choose|j: int| 0 <= j < t.len() && ft[i] == t[j];
                assert(s[j] == t[j]);
                assert(f[i] == s[j]);
            } else {
                assert(f[i] == s[s.len() - 1]);
            }
        }
        if keep(s.last()) {
            assert(sorted(f)) by {
                assert forall|i: int, j: int| 0 <= i < j < f.len() implies key_at(f, i) < key_at(f, j) by {
                    if j == f.len() - 1 {
                        assert(ft[i] == ft[i]);
                        let a = choose|a: int| 0 <= a < t.len() && ft[i] == t[a];
                        assert(s[a] == t[a]);
                        assert(key_at(f, i) == key_at(s, a));
                        assert(key_at(f, j) == key_at(s, s.len() - 1));
                    } else {
                        assert(key_at(f, i) == key_at(ft, i));
                        assert(key_at(f, j) == key_at(ft, j));
                    }
                }
            }
        }
    }
}

/// Keeping the records of a prefix one longer adds the next record when it is kept.
pub proof fn lemma_filter_step<T>(s: Seq<T>, keep: spec_fn(T) -> bool, i: int)
    requires
        0 <= i < s.len(),
    ensures
        s.take(i + 1).filter(keep) == if keep(s[i]) {
            s.take(i).filter(keep).push(s[i])
        } else {
            s.take(i).filter(keep)
        },
{
    reveal_with_fuel(Seq::filter, 1);
    assert(s.take(i + 1).drop_last() =~= s.take(i));
    assert(s.take(i + 1).last() == s[i]);
}

/// Strictly increasing keys, none of them zero, number at most `u32::MAX`.
pub proof fn lemma_sorted_len<T: Keyed>(s: Seq<T>)
    requires
        sorted(s),
        forall|i: int| 0 <= i < s.len() ==> 1 <= #[trigger] key_at(s, i),
    ensures
        s.len() <= u32::MAX,
{
    if s.len() > 0 {
        assert forall|i: int| 0 <= i < s.len() implies key_at(s, 0) + i <= #[trigger] key_at(s, i) by {
            lemma_key_grows(s, i);
        }
        assert(key_at(s, s.len() - 1) >= 1 + s.len() - 1);
    }
}

proof fn lemma_key_grows<T: Keyed>(s: Seq<T>, i: int)
    requires
        sorted(s),
        0 <= i < s.len(),
    ensures
        key_at(s, 0) + i <= key_at(s, i),
    decreases i,
{
    if i > 0 {
        lemma_key_grows(s, i - 1);
        assert(key_at(s, i - 1) < key_at(s, i));
    }
}

/// Every record of the sequence satisfies `p`.
pub open spec fn all_rows<T>(s: Seq<T>, p: spec_fn(T) -> bool) -> bool {
    forall|i: int| 0 <= i < s.len() ==> #[trigger] p(s[i])
}

/// Storing a record keeps a property that it and all records have.
pub proof fn lemma_put_keeps<T: Keyed>(s: Seq<T>, v: T, p: spec_fn(T) -> bool)
    requires
        sorted(s),
        all_rows(s, p),
        p(v),
    ensures
        all_rows(put(s, v), p),
{
    lemma_lower_bound(s, v.key_spec());
    let k = v.key_spec();
    let q = lower_bound(s, k);
    let r = put(s, v);
    if q < s.len() && key_at(s, q) == k {
        assert(r == s.update(q, v));
        assert forall|i: int| 0 <= i < r.len() implies #[trigger] p(r[i]) by {
            if i != q {
                assert(r[i] == s[i]);
            }
        }
    } else {
        assert(r == s.insert(q, v));
        assert forall|i: int| 0 <= i < r.len() implies #[trigger] p(r[i]) by {
            if i < q {
                assert(r[i] == s[i]);
            } else if i > q {
                assert(r[i] == s[i - 1]);
            }
        }
    }
}

/// Removing a record keeps a property that all records have.
pub proof fn lemma_drop_keeps<T: Keyed>(s: Seq<T>, k: u32, p: spec_fn(T) -> bool)
    requires
        sorted(s),
        all_rows(s, p),
    ensures
        all_rows(drop_key(s, k), p),
{
    lemma_lower_bound(s, k);
    let q = lower_bound(s, k);
    let r = drop_key(s, k);
    if q < s.len() && key_at(s, q) == k {
        assert(r == s.remove(q));
        assert forall|i: int| 0 <= i < r.len() implies #[trigger] p(r[i]) by {
            if i < q {
                assert(r[i] == s[i]);
            } else {
                assert(r[i] == s[i + 1]);
            }
        }
    }
}

/// Keeping some records keeps a property that all records have.
pub proof fn lemma_filter_keeps<T>(s: Seq<T>, keep: spec_fn(T) -> bool, p: spec_fn(T) -> bool)
    requires
        all_rows(s, p),
    ensures
        all_rows(s.filter(keep), p),
    decreases s.len(),
{
    reveal_with_fuel(Seq::filter, 1);
    if s.len() > 0 {
        let t = s.drop_last();
        assert(all_rows(t, p)) by {
            assert forall|i: int| 0 <= i < t.len() implies #[trigger] p(t[i]) by {
                assert(t[i] == s[i]);
            }
        }
        lemma_filter_keeps(t, keep, p);
        let f = s.filter(keep);
        let ft = t.filter(keep);
        assert forall|i: int| 0 <= i < f.len() implies #[trigger] p(f[i]) by {
            if i < ft.len() {
                assert(f[i] == ft[i]);
            } else {
                assert(f[i] == s[s.len() - 1]);
            }
        }
    }
}

/// Keeping some records never makes a sequence longer.
pub proof fn lemma_filter_len<T>(s: Seq<T>, keep: spec_fn(T) -> bool)
    ensures
        s.filter(keep).len() <= s.len(),
    decreases s.len(),
{
    reveal_with_fuel(Seq::filter, 1);
    if s.len() > 0 {
        lemma_filter_len(s.drop_last(), keep);
    }
}

/// Splitting a sequence by a condition and by its negation loses nothing.
pub proof fn lemma_filter_partition<T>(s: Seq<T>, keep: spec_fn(T) -> bool, rest: spec_fn(T) -> bool)
    requires
        forall|x: T| #[trigger] rest(x) == !keep(x),
    ensures
        s.filter(keep).len() + s.filter(rest).len() == s.len(),
    decreases s.len(),
{
    reveal_with_fuel(Seq::filter, 1);
    if s.len() > 0 {
        lemma_filter_partition(s.drop_last(), keep, rest);
        assert(rest(s.last()) == !keep(s.last()));
    }
}

/// Keeping the records of a sequence that all satisfy the condition keeps them
/// all.
pub proof fn lemma_filter_everything<T>(s: Seq<T>, keep: spec_fn(T) -> bool)
    requires
        all_rows(s, keep),
    ensures
        s.filter(keep) == s,
    decreases s.len(),
{
    reveal_with_fuel(Seq::filter, 1);
    if s.len() > 0 {
        let t = s.drop_last();
        assert(all_rows(t, keep)) by {
            assert forall|i: int| 0 <= i < t.len() implies #[trigger] keep(t[i]) by {
                assert(t[i] == s[i]);
            }
        }
        lemma_filter_everything(t, keep);
        assert(keep(s[s.len() - 1]));
        assert(t.push(s.last()) =~= s);
    }
}

/// Storing the records of a sorted sequence, one after the other, into an empty
/// sequence gives the sequence back.
pub proof fn lemma_put_all_sorted<T: Keyed>(s: Seq<T>)
    requires
        sorted(s),
    ensures
        put_all(Seq::<T>::empty(), s) == s,
    decreases s.len(),
{
    if s.len() > 0 {
        let t = s.drop_last();
        assert(sorted(t)) by {
            assert forall|i: int, j: int| 0 <= i < j < t.len() implies key_at(t, i) < key_at(t, j) by {
                assert(key_at(t, i) == key_at(s, i));
                assert(key_at(t, j) == key_at(s, j));
            }
        }
        lemma_put_all_sorted(t);
        assert forall|j: int| 0 <= j < t.len() implies key_at(t, j) < s.last().key_spec() by {
            assert(key_at(t, j) == key_at(s, j));
            assert(key_at(s, j) < key_at(s, s.len() - 1));
        }
        lemma_put(t, s.last());
        assert(t.push(s.last()) =~= s);
    }
}

/// Where a key goes depends on the keys alone.
proof fn lemma_lower_bound_keys<T: Keyed>(s: Seq<T>, t: Seq<T>, k: u32)
    requires
        s.len() == t.len(),
        forall|i: int| 0 <= i < s.len() ==> key_at(s, i) == key_at(t, i),
    ensures
        lower_bound(s, k) == lower_bound(t, k),
    decreases s.len(),
{
    if s.len() > 0 {
        assert(key_at(s, 0) == key_at(t, 0));
        let s1 = s.drop_first();
        let t1 = t.drop_first();
        assert forall|i: int| 0 <= i < s1.len() implies key_at(s1, i) == key_at(t1, i) by {
            assert(key_at(s1, i) == key_at(s, i + 1));
            assert(key_at(t1, i) == key_at(t, i + 1));
        }
        lemma_lower_bound_keys(s1, t1, k);
    }
}

/// Storing a record that is already stored changes nothing.
pub proof fn lemma_put_same<T: Keyed>(s: Seq<T>, v: T)
    requires
        sorted(s),
        lookup(s, v.key_spec()) == Some(v),
    ensures
        put(s, v) == s,
{
    let k = v.key_spec();
    lemma_lower_bound(s, k);
    let p = lower_bound(s, k);
    lemma_lookup_some(s, k);
    let c = choose|c: int| 0 <= c < s.len() && key_at(s, c) == k && lookup(s, k) == Some(s[c]);
    if c < p {
        assert(key_at(s, c) < k);
    } else if c > p {
        assert(key_at(s, p) < key_at(s, c));
    }
    assert(s.update(p, v) =~= s);
}

/// Storing two records with the same key, one after the other, is storing the
/// second.
pub proof fn lemma_put_twice<T: Keyed>(s: Seq<T>, a: T, b: T)
    requires
        sorted(s),
        a.key_spec() == b.key_spec(),
    ensures
        put(put(s, a), b) == put(s, b),
{
    let k = a.key_spec();
    lemma_lower_bound(s, k);
    lemma_put(s, a);
    let p = lower_bound(s, k);
    let s1 = put(s, a);
    lemma_lower_bound(s1, k);
    if p < s.len() && key_at(s, p) == k {
        assert forall|i: int| 0 <= i < s.len() implies key_at(s, i) == key_at(s1, i) by {
            if i != p {
                assert(s1[i] == s[i]);
            }
        }
        lemma_lower_bound_keys(s, s1, k);
        assert(s.update(p, a).update(p, b) =~= s.update(p, b));
    } else {
        assert(s1 == s.insert(p, a));
        assert(key_at(s1, p) == k);
        let q = lower_bound(s1, k);
        if q > p {
            assert(key_at(s1, p) < k);
        } else if q < p {
            assert(s1[q] == s[q]);
            assert(key_at(s, q) < k);
        }
        assert(s.insert(p, a).update(p, b) =~= s.insert(p, b));
    }
}

/// A table of records sorted by key.
pub struct Table<T: Keyed> {
    rows: Vec<T>,
}

impl<T: Keyed> Table<T> {
    /// The records, in increasing order of key.
    pub closed spec fn rows(self) -> Seq<T> {
        self.rows@
    }

    /// The records of every table are in increasing order of key.
    #[verifier::type_invariant]
    pub open spec fn rows_sorted(self) -> bool {
        sorted(self.rows())
    }

    pub fn new() -> (t: Self)
        ensures
            t.rows() == Seq::<T>::empty(),
    {
        Table { rows: Vec::new() }
    }

    /// Builds a table from records already in increasing order of key.
    pub fn from_sorted(rows: Vec<T>) -> (t: Self)
        requires
            sorted(rows@),
        ensures
            t.rows() == rows@,
    {
        Table { rows }
    }

    /// Builds a table from records, when their keys strictly increase.
    pub fn from_rows(rows: Vec<T>) -> (r: Option<Self>)
        ensures
            r is Some <==> sorted(rows@),
            r matches Some(t) ==> t.rows() == rows@,
    {
        let n = rows.len();
        let mut i: usize = 1;
        while i < n
            invariant
                1 <= i,
                n == rows@.len(),
                forall|a: int, b: int| 0 <= a < b < i && b < n ==> key_at(rows@, a) < key_at(rows@, b),
            decreases n - i,
        {
            if rows[i - 1].key() >= rows[i].key() {
                proof {
                    assert(!(key_at(rows@, i - 1) < key_at(rows@, i as int)));
                }
                return None;
            }
            proof {
                assert forall|a: int, b: int| 0 <= a < b < i + 1 && b < n implies key_at(rows@, a)
                    < key_at(rows@, b) by {
                    if b == i && a < i - 1 {
                        assert(key_at(rows@, a) < key_at(rows@, i - 1));
                    }
                }
            }
            i = i + 1;
        }
        Some(Table { rows })
    }

    /// The records, in increasing order of key, handing the table over.
    pub fn into_rows(self) -> (r: Vec<T>)
        ensures
            r@ == self.rows(),
    {
        self.rows
    }

    pub fn len(&self) -> (n: usize)
        ensures
            n == self.rows().len(),
            sorted(self.rows()),
    {
        proof {
            use_type_invariant(self);
        }
        self.rows.len()
    }

    pub fn at(&self, i: usize) -> (r: &T)
        requires
            i < self.rows().len(),
        ensures
            *r == self.rows()[i as int],
    {
        &self.rows[i]
    }

    /// Where `k` is stored, or where a record keyed `k` would go.
    fn search(&self, k: u32) -> (p: usize)
        ensures
            p == lower_bound(self.rows(), k),
            p <= self.rows().len(),
    {
        proof {
            use_type_invariant(self);
            lemma_lower_bound(self.rows@, k);
        }
        let mut i: usize = 0;
        while i < self.rows.len() && self.rows[i].key() < k
            invariant
                0 <= i <= self.rows@.len(),
                sorted(self.rows@),
                forall|j: int| 0 <= j < i ==> key_at(self.rows@, j) < k,
            decreases self.rows@.len() - i,
        {
            i = i + 1;
        }
        proof {
            lemma_lower_bound(self.rows@, k);
            let lb = lower_bound(self.rows@, k);
            if (i as int) < lb {
                assert(key_at(self.rows@, i as int) < k);
            } else if (i as int) > lb {
                assert(key_at(self.rows@, lb) >= k);
            }
        }
        i
    }

    /// The position of the record keyed `k`, if there is one.
    pub fn position(&self, k: u32) -> (r: Option<usize>)
        ensures
            r is Some <==> has_key(self.rows(), k),
            r matches Some(i) ==> i < self.rows().len() && key_at(self.rows(), i as int) == k
                && lookup(self.rows(), k) == Some(self.rows()[i as int]),
    {
        proof {
            use_type_invariant(self);
            lemma_lower_bound(self.rows@, k);
        }
        let p = self.search(k);
        if p < self.rows.len() && self.rows[p].key() == k {
            proof {
                lemma_lookup_at(self.rows@, p as int);
            }
            Some(p)
        } else {
            proof {
                if has_key(self.rows@, k) {
                    let c = choose|c: int| 0 <= c < self.rows@.len() && key_at(self.rows@, c) == k;
                    if c < p {
                        assert(key_at(self.rows@, c) < k);
                    } else if c > p {
                        assert(key_at(self.rows@, p as int) < key_at(self.rows@, c));
                    }
                }
            }
            None
        }
    }

    /// A copy of the record keyed `k`, if there is one.
    pub fn get(&self, k: u32) -> (r: Option<T>)
        ensures
            r == lookup(self.rows(), k),
    {
        match self.position(k) {
            Some(i) => Some(self.rows[i].duplicate()),
            None => None,
        }
    }

    pub fn contains(&self, k: u32) -> (b: bool)
        ensures
            b == has_key(self.rows(), k),
            b == lookup(self.rows(), k) is Some,
    {
        self.position(k).is_some()
    }

    /// Copies of the records that `f` keeps, in increasing order of key.
    pub fn select<F: RowFilter<T>>(&self, f: &F) -> (r: Vec<T>)
        ensures
            r@ == self.rows().filter(f.keep()),
    {
        let ghost keep = f.keep();
        let mut out: Vec<T> = Vec::new();
        let n = self.rows.len();
        for i in 0..n
            invariant
                n == self.rows@.len(),
                keep == f.keep(),
                out@ == self.rows@.take(i as int).filter(keep),
        {
            proof {
                lemma_filter_step(self.rows@, keep, i as int);
            }
            let row = &self.rows[i];
            if f.test(row) {
                out.push(row.duplicate());
            }
        }
        proof {
            assert(self.rows@.take(n as int) =~= self.rows@);
        }
        out
    }

    /// Copies of all records, in increasing order of key.
    pub fn to_vec(&self) -> (r: Vec<T>)
        ensures
            r@ == self.rows(),
    {
        let mut out: Vec<T> = Vec::new();
        let n = self.rows.len();
        for i in 0..n
            invariant
                n == self.rows@.len(),
                out@ == self.rows@.take(i as int),
        {
            out.push(self.rows[i].duplicate());
            proof {
                assert(self.rows@.take(i + 1) =~= self.rows@.take(i as int).push(self.rows@[i as int]));
            }
        }
        proof {
            assert(self.rows@.take(n as int) =~= self.rows@);
        }
        out
    }

    /// Stores `v` under its key, replacing the record that was there.
    pub fn set(&mut self, v: T)
        ensures
            final(self).rows() == put(old(self).rows(), v),
    {
        proof {
            use_type_invariant(&*self);
            lemma_put(self.rows@, v);
        }
        let k = v.key();
        let p = self.search(k);
        let mut rows = Vec::new();
        std::mem::swap(&mut rows, &mut self.rows);
        if p < rows.len() && rows[p].key() == k {
            rows.set(p, v);
        } else {
            rows.insert(p, v);
        }
        self.rows = rows;
    }

    /// Removes the record keyed `k`, if there is one.
    pub fn remove(&mut self, k: u32)
        ensures
            final(self).rows() == drop_key(old(self).rows(), k),
    {
        proof {
            use_type_invariant(&*self);
            lemma_drop_key(self.rows@, k);
        }
        let p = self.search(k);
        if p < self.rows.len() && self.rows[p].key() == k {
            let mut rows = Vec::new();
            std::mem::swap(&mut rows, &mut self.rows);
            rows.remove(p);
            self.rows = rows;
        }
    }
}

} // verus!
