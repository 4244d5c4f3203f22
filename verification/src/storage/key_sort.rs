//! The order in which the on-disk store lists keys: by their UTF-8 bytes,
//! which is the order of their characters' code points.

use vstd::prelude::*;
use crate::storage::memory::string_views;
use crate::text::chars_of;

verus! {

/// Whether key `a` comes before key `b`: at the first character where they
/// differ, `a`'s has the smaller code point, or `a` is a proper prefix of
/// `b`.
pub open spec fn key_before(a: Seq<char>, b: Seq<char>) -> bool
    decreases a.len(),
{
    if b.len() == 0 {
        false
    } else if a.len() == 0 {
        true
    } else if a[0] != b[0] {
        (a[0] as u32) < (b[0] as u32)
    } else {
        key_before(a.drop_first(), b.drop_first())
    }
}

/// `q` with `k` put before the first key that `k` comes before.
pub open spec fn insert_key(q: Seq<Seq<char>>, k: Seq<char>) -> Seq<Seq<char>>
    decreases q.len(),
{
    if q.len() == 0 {
        seq![k]
    } else if key_before(k, q[0]) {
        seq![k] + q
    } else {
        seq![q[0]] + insert_key(q.drop_first(), k)
    }
}

/// The keys of `q` in the store's order.
pub open spec fn sorted_keys(q: Seq<Seq<char>>) -> Seq<Seq<char>>
    decreases q.len(),
{
    if q.len() == 0 {
        Seq::empty()
    } else {
        insert_key(sorted_keys(q.drop_last()), q.last())
    }
}

/// Inserting at the first key that `k` comes before.
proof fn lemma_insert_key_at(q: Seq<Seq<char>>, k: Seq<char>, j: int)
    requires
        0 <= j <= q.len(),
        forall|t: int| 0 <= t < j ==> !key_before(k, #[trigger] q[t]),
        j < q.len() ==> key_before(k, q[j]),
    ensures
        insert_key(q, k) == q.take(j).push(k) + q.skip(j),
    decreases q.len(),
{
    if q.len() == 0 {
        assert(q.take(j).push(k) + q.skip(j) =~= seq![k]);
    } else if j == 0 {
        assert(q.take(j).push(k) + q.skip(j) =~= seq![k] + q);
    } else {
        let r = q.drop_first();
        assert forall|t: int| 0 <= t < j - 1 implies !key_before(k, #[trigger] r[t]) by {
            assert(r[t] == q[t + 1]);
        }
        if j - 1 < r.len() {
            assert(r[j - 1] == q[j]);
        }
        lemma_insert_key_at(r, k, j - 1);
        assert(!key_before(k, q[0]));
        assert(q.take(j).push(k) + q.skip(j) =~= seq![q[0]] + (r.take(j - 1).push(k) + r.skip(j - 1)));
    }
}

/// Inserting adds `k` to the keys.
proof fn lemma_insert_key_keys(q: Seq<Seq<char>>, k: Seq<char>)
    ensures
        insert_key(q, k).len() == q.len() + 1,
        insert_key(q, k).to_set() == q.to_set().insert(k),
        q.no_duplicates() && !q.contains(k) ==> insert_key(q, k).no_duplicates(),
    decreases q.len(),
{
    if q.len() == 0 {
        assert(seq![k].to_set() =~= Set::<Seq<char>>::empty().insert(k)) by {
            assert(seq![k][0] == k);
        }
        assert(q.to_set() =~= Set::<Seq<char>>::empty());
    } else if key_before(k, q[0]) {
        let r = seq![k] + q;
        assert(r.to_set() =~= q.to_set().insert(k)) by {
            assert forall|x: Seq<char>| r.contains(x) <==> q.contains(x) || x == k by {
                if r.contains(x) {
                    let i = choose|i: int| 0 <= i < r.len() && r[i] == x;
                    if i > 0 {
                        assert(q[i - 1] == x);
                    }
                }
                if q.contains(x) {
                    let i = choose|i: int| 0 <= i < q.len() && q[i] == x;
                    assert(r[i + 1] == x);
                }
                if x == k {
                    assert(r[0] == x);
                }
            }
        }
        if q.no_duplicates() && !q.contains(k) {
            assert forall|a: int, b: int| 0 <= a < b < r.len() implies r[a] != r[b] by {
                if a == 0 {
                    assert(r[b] == q[b - 1]);
                } else {
                    assert(r[a] == q[a - 1]);
                    assert(r[b] == q[b - 1]);
                }
            }
        }
    } else {
        let t = q.drop_first();
        lemma_insert_key_keys(t, k);
        let it = insert_key(t, k);
        let r = seq![q[0]] + it;
        assert(q =~= seq![q[0]] + t);
        assert(r.to_set() =~= q.to_set().insert(k)) by {
            assert forall|x: Seq<char>| r.contains(x) <==> q.contains(x) || x == k by {
                if r.contains(x) {
                    let i = choose|i: int| 0 <= i < r.len() && r[i] == x;
                    if i > 0 {
                        assert(it[i - 1] == x);
                        assert(it.to_set().contains(x));
                        if x != k {
                            assert(t.to_set().contains(x));
                            let p = choose|p: int| 0 <= p < t.len() && t[p] == x;
                            assert(q[p + 1] == x);
                        }
                    } else {
                        assert(q[0] == x);
                    }
                }
                if q.contains(x) {
                    let i = choose|i: int| 0 <= i < q.len() && q[i] == x;
                    if i == 0 {
                        assert(r[0] == x);
                    } else {
                        assert(t[i - 1] == x);
                        assert(t.to_set().contains(x));
                        assert(it.to_set().contains(x));
                        let p = choose|p: int| 0 <= p < it.len() && it[p] == x;
                        assert(r[p + 1] == x);
                    }
                }
                if x == k {
                    assert(it.to_set().contains(k));
                    let p = choose|p: int| 0 <= p < it.len() && it[p] == k;
                    assert(r[p + 1] == x);
                }
            }
        }
        if q.no_duplicates() && !q.contains(k) {
            assert(t.no_duplicates()) by {
                assert forall|a: int, b: int| 0 <= a < b < t.len() implies t[a] != t[b] by {
                    assert(t[a] == q[a + 1]);
                    assert(t[b] == q[b + 1]);
                }
            }
            assert(!t.contains(k)) by {
                if t.contains(k) {
                    let p = choose|p: int| 0 <= p < t.len() && t[p] == k;
                    assert(q[p + 1] == k);
                }
            }
            assert(!it.to_set().contains(q[0])) by {
                if it.to_set().contains(q[0]) {
                    if q[0] != k {
                        assert(t.to_set().contains(q[0]));
                        let p = choose|p: int| 0 <= p < t.len() && t[p] == q[0];
                        assert(q[p + 1] == q[0]);
                    } else {
                        assert(q[0] == k);
                    }
                }
            }
            assert forall|a: int, b: int| 0 <= a < b < r.len() implies r[a] != r[b] by {
                if a == 0 {
                    assert(r[b] == it[b - 1]);
                    assert(it.to_set().contains(it[b - 1]));
                } else {
                    assert(r[a] == it[a - 1]);
                    assert(r[b] == it[b - 1]);
                }
            }
        }
    }
}

/// Sorting keeps the keys, each as often as before.
pub proof fn lemma_sorted_keys(q: Seq<Seq<char>>)
    ensures
        sorted_keys(q).len() == q.len(),
        sorted_keys(q).to_set() == q.to_set(),
        q.no_duplicates() ==> sorted_keys(q).no_duplicates(),
    decreases q.len(),
{
    if q.len() == 0 {
        assert(q.to_set() =~= Set::<Seq<char>>::empty());
        assert(Seq::<Seq<char>>::empty().to_set() =~= Set::<Seq<char>>::empty());
    } else {
        let p = q.drop_last();
        lemma_sorted_keys(p);
        lemma_insert_key_keys(sorted_keys(p), q.last());
        assert(q =~= p.push(q.last()));
        p.lemma_push_to_set_commute(q.last());
        if q.no_duplicates() {
            assert(p.no_duplicates()) by {
                assert forall|a: int, b: int| 0 <= a < b < p.len() implies p[a] != p[b] by {
                    assert(p[a] == q[a]);
                    assert(p[b] == q[b]);
                }
            }
            assert(!sorted_keys(p).contains(q.last())) by {
                if sorted_keys(p).contains(q.last()) {
                    assert(sorted_keys(p).to_set().contains(q.last()));
                    assert(p.to_set().contains(q.last()));
                    let i = choose|i: int| 0 <= i < p.len() && p[i] == q.last();
                    assert(q[i] == q[q.len() - 1]);
                }
            }
        }
    }
}

/// Computes `key_before`.
pub fn key_precedes(a: &Vec<char>, b: &Vec<char>) -> (r: bool)
    ensures
        r == key_before(a@, b@),
{
    let mut i: usize = 0;
    assert(a@.skip(0) =~= a@);
    assert(b@.skip(0) =~= b@);
    while i < a.len() && i < b.len() && a[i] == b[i]
        invariant
            i <= a@.len(),
            i <= b@.len(),
            key_before(a@, b@) == key_before(a@.skip(i as int), b@.skip(i as int)),
        decreases a@.len() - i,
    {
        proof {
            assert(a@.skip(i as int).drop_first() =~= a@.skip(i + 1));
            assert(b@.skip(i as int).drop_first() =~= b@.skip(i + 1));
        }
        i = i + 1;
    }
    proof {
        if i < a@.len() && i < b@.len() {
            assert(a@.skip(i as int)[0] == a@[i as int]);
            assert(b@.skip(i as int)[0] == b@[i as int]);
        }
    }
    if i >= b.len() {
        false
    } else if i >= a.len() {
        true
    } else {
        (a[i] as u32) < (b[i] as u32)
    }
}

/// `keys` in the store's order.
pub fn sort_keys(keys: Vec<String>) -> (r: Vec<String>)
    ensures
        string_views(r@) == sorted_keys(string_views(keys@)),
{
    let ghost all = string_views(keys@);
    let mut r: Vec<String> = Vec::new();
    let mut i: usize = 0;
    while i < keys.len()
        invariant
            i <= keys@.len(),
            all == string_views(keys@),
            string_views(r@) == sorted_keys(all.take(i as int)),
        decreases keys@.len() - i,
    {
        let k = keys[i].clone();
        let kc = chars_of(k.as_str());
        let ghost q = string_views(r@);
        let mut j: usize = 0;
        while j < r.len() && !key_precedes(&kc, &chars_of(r[j].as_str()))
            invariant
                j <= r@.len(),
                q == string_views(r@),
                kc@ == k@,
                forall|t: int| 0 <= t < j ==> !key_before(k@, #[trigger] q[t]),
            decreases r@.len() - j,
        {
            j = j + 1;
        }
        proof {
            lemma_insert_key_at(q, k@, j as int);
            assert(all.take(i + 1).drop_last() =~= all.take(i as int));
            assert(all.take(i + 1).last() == k@);
        }
        let ghost before = r@;
        r.insert(j, k);
        proof {
            assert(string_views(r@) =~= q.take(j as int).push(k@) + q.skip(j as int));
        }
        i = i + 1;
    }
    proof {
        assert(all.take(keys@.len() as int) =~= all);
    }
    r
}

} // verus!
