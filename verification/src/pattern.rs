//! Glob-style patterns: `*` stands for any run of characters, the empty
//! one included, and every other character for itself.

use vstd::prelude::*;
use crate::text::chars_of;

verus! {

/// Whether `s` matches the glob pattern `p`.
pub open spec fn glob(p: Seq<char>, s: Seq<char>) -> bool
    decreases p.len(), s.len(),
{
    if p.len() == 0 {
        s.len() == 0
    } else if p[0] == '*' {
        glob(p.drop_first(), s) || (s.len() > 0 && glob(p, s.drop_first()))
    } else {
        s.len() > 0 && s[0] == p[0] && glob(p.drop_first(), s.drop_first())
    }
}

/// Whether `key` matches the key pattern `pat` (a glob pattern).
pub open spec fn key_matches(key: Seq<char>, pat: Seq<char>) -> bool {
    glob(pat, key)
}

/// `p` holds no `*`.
pub open spec fn no_star(p: Seq<char>) -> bool {
    forall|i: int| 0 <= i < p.len() ==> p[i] != '*'
}

/// One step of `glob` on the suffixes of `p` and `s` from `i` and `j`.
proof fn lemma_glob_step(p: Seq<char>, s: Seq<char>, i: int, j: int)
    requires
        0 <= i <= p.len(),
        0 <= j <= s.len(),
    ensures
        glob(p.skip(i), s.skip(j)) == if i == p.len() {
            j == s.len()
        } else if p[i] == '*' {
            glob(p.skip(i + 1), s.skip(j)) || (j < s.len() && glob(p.skip(i), s.skip(j + 1)))
        } else {
            j < s.len() && s[j] == p[i] && glob(p.skip(i + 1), s.skip(j + 1))
        },
{
    if i < p.len() {
        assert(p.skip(i).drop_first() =~= p.skip(i + 1));
        assert(p.skip(i)[0] == p[i]);
        if j < s.len() {
            assert(s.skip(j).drop_first() =~= s.skip(j + 1));
            assert(s.skip(j)[0] == s[j]);
        }
    }
}

/// A pattern without `*` matches exactly itself.
pub proof fn lemma_glob_literal(p: Seq<char>, s: Seq<char>)
    requires
        no_star(p),
    ensures
        glob(p, s) == (s == p),
    decreases p.len(),
{
    if p.len() > 0 {
        assert(no_star(p.drop_first())) by {
            assert forall|i: int| 0 <= i < p.drop_first().len() implies p.drop_first()[i] != '*' by {
                assert(p.drop_first()[i] == p[i + 1]);
            }
        }
        assert(p[0] != '*');
        if s.len() > 0 {
            lemma_glob_literal(p.drop_first(), s.drop_first());
            if s[0] == p[0] && s.drop_first() == p.drop_first() {
                assert forall|i: int| 0 <= i < s.len() implies s[i] == p[i] by {
                    if i > 0 {
                        assert(s[i] == s.drop_first()[i - 1]);
                        assert(p[i] == p.drop_first()[i - 1]);
                    }
                }
                assert(s =~= p);
            }
            if s == p {
                assert(s.drop_first() =~= p.drop_first());
            }
        }
    } else {
        if s.len() == 0 {
            assert(s =~= p);
        }
    }
}

/// A starless part at the front of a pattern matches the same characters at
/// the front of the text.
proof fn lemma_glob_prefix(a: Seq<char>, rest: Seq<char>, s: Seq<char>)
    requires
        no_star(a),
    ensures
        glob(a + rest, s) == (a.len() <= s.len() && s.take(a.len() as int) == a && glob(rest, s.skip(a.len() as int))),
    decreases a.len(),
{
    if a.len() == 0 {
        assert(a + rest =~= rest);
        assert(s.skip(0) =~= s);
        assert(s.take(0) =~= a);
    } else {
        let p = a + rest;
        assert(p[0] == a[0]);
        assert(a[0] != '*');
        assert(p.drop_first() =~= a.drop_first() + rest);
        assert(no_star(a.drop_first())) by {
            assert forall|i: int| 0 <= i < a.drop_first().len() implies a.drop_first()[i] != '*' by {
                assert(a.drop_first()[i] == a[i + 1]);
            }
        }
        if s.len() > 0 {
            lemma_glob_prefix(a.drop_first(), rest, s.drop_first());
            if a.len() <= s.len() {
                assert(s.drop_first().skip(a.len() - 1) =~= s.skip(a.len() as int));
                assert(s.take(a.len() as int) =~= seq![s[0]] + s.drop_first().take(a.len() - 1));
                assert(a =~= seq![a[0]] + a.drop_first());
                if s.take(a.len() as int) == a {
                    assert(s.take(a.len() as int)[0] == s[0]);
                    assert(s.drop_first().take(a.len() - 1) =~= s.take(a.len() as int).drop_first());
                }
            }
        }
    }
}

/// A pattern that starts with `*` matches the texts of which some suffix
/// matches the rest of the pattern.
proof fn lemma_glob_star(b: Seq<char>, s: Seq<char>)
    ensures
        glob(seq!['*'] + b, s) == exists|k: int| 0 <= k <= s.len() && #[trigger] glob(b, s.skip(k)),
    decreases s.len(),
{
    let p = seq!['*'] + b;
    assert(p[0] == '*');
    assert(p.drop_first() =~= b);
    if s.len() > 0 {
        lemma_glob_star(b, s.drop_first());
        if glob(p, s) {
            if glob(b, s) {
                assert(s.skip(0) =~= s);
            } else {
                let k = choose|k: int| 0 <= k <= s.drop_first().len() && #[trigger] glob(b, s.drop_first().skip(k));
                assert(s.drop_first().skip(k) =~= s.skip(k + 1));
            }
        }
        if exists|k: int| 0 <= k <= s.len() && #[trigger] glob(b, s.skip(k)) {
            let k = choose|k: int| 0 <= k <= s.len() && #[trigger] glob(b, s.skip(k));
            if k == 0 {
                assert(s.skip(0) =~= s);
            } else {
                assert(s.drop_first().skip(k - 1) =~= s.skip(k));
            }
        }
    } else {
        if glob(b, s) {
            assert(s.skip(0) =~= s);
        }
        if exists|k: int| 0 <= k <= s.len() && #[trigger] glob(b, s.skip(k)) {
            let k = choose|k: int| 0 <= k <= s.len() && #[trigger] glob(b, s.skip(k));
            assert(s.skip(k) =~= s);
        }
    }
}

/// A pattern with one `*` between two starless parts `a` and `b` matches
/// exactly the texts made of `a`, any run of characters, and `b`.
pub proof fn law_glob_one_star(a: Seq<char>, b: Seq<char>, s: Seq<char>)
    requires
        no_star(a),
        no_star(b),
    ensures
        glob(a + seq!['*'] + b, s) <==> exists|m: Seq<char>| s == #[trigger] (a + m + b),
{
    let rest = seq!['*'] + b;
    assert(a + seq!['*'] + b =~= a + rest);
    lemma_glob_prefix(a, rest, s);
    if a.len() <= s.len() {
        let t = s.skip(a.len() as int);
        lemma_glob_star(b, t);
        if glob(a + rest, s) {
            let k = choose|k: int| 0 <= k <= t.len() && #[trigger] glob(b, t.skip(k));
            lemma_glob_literal(b, t.skip(k));
            let m = t.take(k);
            assert(s =~= a + m + b);
        }
    }
    if exists|m: Seq<char>| s == #[trigger] (a + m + b) {
        let m = choose|m: Seq<char>| s == #[trigger] (a + m + b);
        assert(s.take(a.len() as int) =~= a);
        let t = s.skip(a.len() as int);
        assert(t =~= m + b);
        lemma_glob_star(b, t);
        assert(t.skip(m.len() as int) =~= b);
        lemma_glob_literal(b, t.skip(m.len() as int));
        assert(glob(b, t.skip(m.len() as int)));
    }
}

/// Whether `s` matches the glob pattern `p`.
pub fn glob_matches(p: &Vec<char>, s: &Vec<char>) -> (r: bool)
    ensures
        r == glob(p@, s@),
{
    let n = s.len();
    // For the pattern from `i`: `next[j]` tells whether the text from `j`
    // matches, for `j < n`, and `next_end` whether the empty rest does.
    let mut next: Vec<bool> = Vec::new();
    let mut j: usize = 0;
    while j < n
        invariant
            n == s@.len(),
            j <= n,
            next@.len() == j,
            forall|k: int| 0 <= k < j ==> !#[trigger] next@[k],
        decreases n - j,
    {
        next.push(false);
        j = j + 1;
    }
    let mut next_end = true;
    let mut i: usize = p.len();
    proof {
        assert forall|k: int| 0 <= k <= n implies (if k < n { next@[k] } else { next_end }) == glob(
            p@.skip(p.len() as int),
            s@.skip(k),
        ) by {
            lemma_glob_step(p@, s@, p.len() as int, k);
        }
    }
    while i > 0
        invariant
            n == s@.len(),
            i <= p.len(),
            next@.len() == n,
            forall|k: int| 0 <= k < n ==> #[trigger] next@[k] == glob(p@.skip(i as int), s@.skip(k)),
            next_end == glob(p@.skip(i as int), s@.skip(n as int)),
        decreases i,
    {
        let c = p[i - 1];
        proof {
            lemma_glob_step(p@, s@, i - 1, n as int);
        }
        let cur_end = c == '*' && next_end;
        let mut cur: Vec<bool> = Vec::new();
        let mut m: usize = 0;
        while m < n
            invariant
                m <= n,
                cur@.len() == m,
            decreases n - m,
        {
            cur.push(false);
            m = m + 1;
        }
        let mut k: usize = n;
        while k > 0
            invariant
                n == s@.len(),
                1 <= i <= p.len(),
                c == p@[i - 1],
                k <= n,
                cur@.len() == n,
                next@.len() == n,
                forall|q: int| 0 <= q < n ==> #[trigger] next@[q] == glob(p@.skip(i as int), s@.skip(q)),
                next_end == glob(p@.skip(i as int), s@.skip(n as int)),
                cur_end == glob(p@.skip(i - 1), s@.skip(n as int)),
                forall|q: int| k <= q < n ==> #[trigger] cur@[q] == glob(p@.skip(i - 1), s@.skip(q)),
            decreases k,
        {
            let q = k - 1;
            proof {
                lemma_glob_step(p@, s@, i - 1, q as int);
            }
            let after_next = if q + 1 < n { next[q + 1] } else { next_end };
            let v = if c == '*' {
                next[q] || (if q + 1 < n { cur[q + 1] } else { cur_end })
            } else {
                s[q] == c && after_next
            };
            cur.set(q, v);
            k = q;
        }
        next = cur;
        next_end = cur_end;
        i = i - 1;
    }
    proof {
        assert(p@.skip(0) =~= p@);
        assert(s@.skip(0) =~= s@);
    }
    if n > 0 {
        next[0]
    } else {
        next_end
    }
}

/// Simple pattern matching on keys: `*` matches any run of characters.
pub fn matches_pattern(key: &str, pattern: &str) -> (r: bool)
    ensures
        r == key_matches(key@, pattern@),
{
    let k = chars_of(key);
    let p = chars_of(pattern);
    glob_matches(&p, &k)
}

} // verus!
