//! Glob patterns for `KEYS`: `*` matches any run of characters, `?` exactly one.

use vstd::prelude::*;
use vstd::string::*;

verus! {

/// Whether pattern `p` matches all of `s`, character by character.
pub open spec fn glob_match(p: Seq<char>, s: Seq<char>) -> bool
    decreases p.len() + s.len(),
{
    if p.len() == 0 {
        s.len() == 0
    } else if p[0] == '*' {
        glob_match(p.drop_first(), s) || (s.len() > 0 && glob_match(p, s.drop_first()))
    } else if s.len() == 0 {
        false
    } else if p[0] == '?' || p[0] == s[0] {
        glob_match(p.drop_first(), s.drop_first())
    } else {
        false
    }
}

fn chars_of(s: &str) -> (r: Vec<char>)
    ensures
        r@ == s@,
{
    let n = s.unicode_len();
    let mut out: Vec<char> = Vec::new();
    let mut i: usize = 0;
    while i < n
        invariant
            0 <= i <= n,
            n == s@.len(),
            out@ == s@.subrange(0, i as int),
        decreases n - i,
    {
        out.push(s.get_char(i));
        proof {
            assert(out@ =~= s@.subrange(0, i as int + 1));
        }
        i = i + 1;
    }
    proof {
        assert(out@ =~= s@);
    }
    out
}

proof fn lemma_suffix_drop_first(s: Seq<char>, j: int)
    requires
        0 <= j < s.len(),
    ensures
        s.subrange(j, s.len() as int).drop_first() == s.subrange(j + 1, s.len() as int),
        s.subrange(j, s.len() as int)[0] == s[j],
{
    assert(s.subrange(j, s.len() as int).drop_first() =~= s.subrange(j + 1, s.len() as int));
}

/// Whether `pattern` matches all of `text`.
pub fn matches_pattern(pattern: &str, text: &str) -> (r: bool)
    ensures
        r == glob_match(pattern@, text@),
{
    let p = chars_of(pattern);
    let s = chars_of(text);
    let m = p.len();
    let n = s.len();
    // `next[j]` holds whether the pattern suffix from `i + 1` matches the text suffix from `j`.
    let mut next: Vec<bool> = Vec::new();
    let mut j: usize = 0;
    while j < n
        invariant
            0 <= j <= n,
            n == s@.len(),
            next@.len() == j,
            forall|k: int| 0 <= k < j ==> next@[k] == false,
        decreases n - j,
    {
        next.push(false);
        j = j + 1;
    }
    next.push(true);
    proof {
        assert forall|k: int| 0 <= k <= n implies next@[k] == glob_match(
            p@.subrange(m as int, m as int),
            s@.subrange(k, n as int),
        ) by {
            assert(p@.subrange(m as int, m as int).len() == 0);
        }
    }
    let mut i: usize = m;
    while i > 0
        invariant
            0 <= i <= m,
            m == p@.len(),
            n == s@.len(),
            next@.len() == n + 1,
            forall|k: int|
                0 <= k <= n ==> #[trigger] next@[k] == glob_match(
                    p@.subrange(i as int, m as int),
                    s@.subrange(k, n as int),
                ),
        decreases i,
    {
        let pi = i - 1;
        let c = p[pi];
        let ghost ps = p@.subrange(pi as int, m as int);
        proof {
            assert(ps.drop_first() =~= p@.subrange(i as int, m as int));
            assert(ps[0] == c);
        }
        let mut cur: Vec<bool> = Vec::new();
        let mut t: usize = 0;
        while t < n
            invariant
                0 <= t <= n,
                cur@.len() == t,
            decreases n - t,
        {
            cur.push(false);
            t = t + 1;
        }
        let last: bool = if c == '*' {
            next[n]
        } else {
            false
        };
        cur.push(last);
        proof {
            assert(s@.subrange(n as int, n as int).len() == 0);
            assert(cur@[n as int] == glob_match(ps, s@.subrange(n as int, n as int)));
        }
        let mut jj: usize = n;
        while jj > 0
            invariant
                0 <= jj <= n,
                cur@.len() == n + 1,
                next@.len() == n + 1,
                m == p@.len(),
                n == s@.len(),
                pi < m,
                ps == p@.subrange(pi as int, m as int),
                ps.drop_first() == p@.subrange(pi + 1, m as int),
                ps[0] == c,
                forall|k: int|
                    0 <= k <= n ==> #[trigger] next@[k] == glob_match(
                        ps.drop_first(),
                        s@.subrange(k, n as int),
                    ),
                forall|k: int|
                    jj <= k <= n ==> #[trigger] cur@[k] == glob_match(ps, s@.subrange(k, n as int)),
            decreases jj,
        {
            let k = jj - 1;
            let ghost sk = s@.subrange(k as int, n as int);
            let v: bool;
            if c == '*' {
                proof {
                    lemma_suffix_drop_first(s@, k as int);
                }
                v = next[k] || cur[k + 1];
            } else {
                proof {
                    lemma_suffix_drop_first(s@, k as int);
                }
                if c == '?' || c == s[k] {
                    v = next[k + 1];
                } else {
                    v = false;
                }
            }
            proof {
                assert(v == glob_match(ps, sk));
            }
            cur.set(k, v);
            jj = k;
        }
        next = cur;
        i = pi;
    }
    proof {
        assert(p@.subrange(0, m as int) =~= p@);
        assert(s@.subrange(0, n as int) =~= s@);
    }
    next[0]
}

} // verus!
