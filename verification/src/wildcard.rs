use vstd::prelude::*;

verus! {

/// One element of a wildcard pattern.
#[derive(Clone, Copy, PartialEq, Eq, Structural, Debug)]
pub enum WildTok {
    /// `?`: any single character.
    Any,
    /// `*`: any sequence of characters, the empty one included.
    Star,
    /// A character that must be there as it is.
    Lit(char),
}

/// A character that a tilde escapes.
pub open spec fn escapable(c: char) -> bool {
    c == '?' || c == '*' || c == '~'
}

/// The elements of a wildcard pattern: `?` and `*` are wildcards, a tilde
/// before `?`, `*` or `~` makes that character literal, and every other
/// character stands for itself.
pub open spec fn wild_tokens(p: Seq<char>) -> Seq<WildTok>
    decreases p.len(),
{
    if p.len() == 0 {
        seq![]
    } else if p.len() > 1 && p[0] == '~' && escapable(p[1]) {
        seq![WildTok::Lit(p[1])] + wild_tokens(p.skip(2))
    } else {
        seq![token_of(p[0])] + wild_tokens(p.skip(1))
    }
}

/// The element a single pattern character stands for.
pub open spec fn token_of(c: char) -> WildTok {
    if c == '?' {
        WildTok::Any
    } else if c == '*' {
        WildTok::Star
    } else {
        WildTok::Lit(c)
    }
}

/// The pattern `t` matches some prefix of `s`.
pub open spec fn wild_match(t: Seq<WildTok>, s: Seq<char>) -> bool
    decreases t.len(), s.len(),
{
    if t.len() == 0 {
        true
    } else {
        match t[0] {
            WildTok::Any => s.len() > 0 && wild_match(t.skip(1), s.skip(1)),
            WildTok::Lit(c) => s.len() > 0 && s[0] == c && wild_match(t.skip(1), s.skip(1)),
            WildTok::Star => wild_match(t.skip(1), s) || (s.len() > 0 && wild_match(t, s.skip(1))),
        }
    }
}

/// The first position at or after `p` (up to the end of `s`) where the
/// pattern matches.
pub open spec fn first_match_from(t: Seq<WildTok>, s: Seq<char>, p: int) -> Option<int>
    decreases s.len() + 1 - p,
{
    if p < 0 || p > s.len() {
        None
    } else if wild_match(t, s.skip(p)) {
        Some(p)
    } else {
        first_match_from(t, s, p + 1)
    }
}

/// The elements of a wildcard pattern.
pub fn wild_tokens_exec(p: &Vec<char>) -> (r: Vec<WildTok>)
    ensures
        r@ == wild_tokens(p@),
{
    let mut out: Vec<WildTok> = Vec::new();
    let mut i: usize = 0;
    assert(p@.skip(0) =~= p@);
    assert(out@ + wild_tokens(p@) =~= wild_tokens(p@));
    while i < p.len()
        invariant
            i <= p.len(),
            out@ + wild_tokens(p@.skip(i as int)) == wild_tokens(p@),
        decreases p.len() - i,
    {
        let ghost rest = p@.skip(i as int);
        let ghost before = out@;
        assert(rest[0] == p@[i as int]);
        assert(i + 1 < p.len() ==> rest[1] == p@[i + 1]);
        if i + 1 < p.len() && p[i] == '~' && (p[i + 1] == '?' || p[i + 1] == '*' || p[i + 1] == '~') {
            assert(rest[1] == p@[i + 1]);
            assert(rest.skip(2) =~= p@.skip(i + 2));
            out.push(WildTok::Lit(p[i + 1]));
            assert(out@ + wild_tokens(p@.skip(i + 2)) =~= before + wild_tokens(rest));
            i += 2;
        } else {
            assert(rest.skip(1) =~= p@.skip(i + 1));
            let tok = if p[i] == '?' {
                WildTok::Any
            } else if p[i] == '*' {
                WildTok::Star
            } else {
                WildTok::Lit(p[i])
            };
            assert(tok == token_of(rest[0]));
            assert(wild_tokens(rest) == seq![tok] + wild_tokens(rest.skip(1)));
            out.push(tok);
            assert(out@ + wild_tokens(p@.skip(i + 1)) =~= before + wild_tokens(rest));
            i += 1;
        }
    }
    assert(p@.skip(p.len() as int) =~= Seq::<char>::empty());
    assert(out@ + Seq::<WildTok>::empty() =~= out@);
    out
}

proof fn lemma_unfold(t: Seq<WildTok>, s: Seq<char>, i: int, j: int)
    requires
        0 <= i < t.len(),
        0 <= j <= s.len(),
    ensures
        t.skip(i)[0] == t[i],
        t.skip(i).skip(1) == t.skip(i + 1),
        j < s.len() ==> s.skip(j)[0] == s[j],
        j < s.len() ==> s.skip(j).skip(1) == s.skip(j + 1),
        s.skip(j).len() == s.len() - j,
{
    assert(t.skip(i).skip(1) =~= t.skip(i + 1));
    if j < s.len() {
        assert(s.skip(j).skip(1) =~= s.skip(j + 1));
    }
}

/// The pattern `t` matches the whole of `s`.
pub open spec fn wild_full(t: Seq<WildTok>, s: Seq<char>) -> bool
    decreases t.len(), s.len(),
{
    if t.len() == 0 {
        s.len() == 0
    } else {
        match t[0] {
            WildTok::Any => s.len() > 0 && wild_full(t.skip(1), s.skip(1)),
            WildTok::Lit(c) => s.len() > 0 && s[0] == c && wild_full(t.skip(1), s.skip(1)),
            WildTok::Star => wild_full(t.skip(1), s) || (s.len() > 0 && wild_full(t, s.skip(1))),
        }
    }
}

/// Whether the pattern matches the whole of `s`.
pub fn wild_full_exec(t: &Vec<WildTok>, s: &Vec<char>) -> (b: bool)
    ensures
        b == wild_full(t@, s@),
{
    let n = s.len();
    let m = t.len();
    // Row `i` of the table: whether `t.skip(i)` matches the whole of
    // `s.skip(j)`, for `j < n` in `next` and for `j == n` in `next_end`.
    let mut next: Vec<bool> = Vec::new();
    let mut j0: usize = 0;
    while j0 < n
        invariant
            j0 <= n,
            next.len() == j0,
            forall|jj: int| 0 <= jj < j0 ==> next@[jj] == false,
        decreases n - j0,
    {
        next.push(false);
        j0 += 1;
    }
    let mut next_end: bool = true;
    let mut i: usize = m;
    assert(t@.skip(m as int) =~= Seq::<WildTok>::empty());
    assert forall|jj: int| 0 <= jj < n implies #[trigger] next@[jj] == wild_full(t@.skip(m as int), s@.skip(jj)) by {
        assert(s@.skip(jj).len() > 0);
    }
    while i > 0
        invariant
            i <= m,
            m == t.len(),
            n == s.len(),
            next.len() == n,
            forall|jj: int| 0 <= jj < n ==> #[trigger] next@[jj] == wild_full(t@.skip(i as int), s@.skip(jj)),
            next_end == wild_full(t@.skip(i as int), s@.skip(n as int)),
        decreases i,
    {
        let row = i - 1;
        let tok = t[row];
        proof {
            lemma_unfold(t@, s@, row as int, n as int);
        }
        let cur_end: bool = match tok {
            WildTok::Star => next_end,
            _ => false,
        };
        let mut cur: Vec<bool> = Vec::new();
        let mut z: usize = 0;
        while z < n
            invariant
                z <= n,
                cur.len() == z,
            decreases n - z,
        {
            cur.push(false);
            z += 1;
        }
        let mut j: usize = n;
        while j > 0
            invariant
                j <= n,
                row < m,
                m == t.len(),
                n == s.len(),
                tok == t@[row as int],
                cur.len() == n,
                next.len() == n,
                forall|jj: int| 0 <= jj < n ==> #[trigger] next@[jj] == wild_full(t@.skip(row + 1), s@.skip(jj)),
                next_end == wild_full(t@.skip(row + 1), s@.skip(n as int)),
                cur_end == wild_full(t@.skip(row as int), s@.skip(n as int)),
                forall|jj: int| j <= jj < n ==> #[trigger] cur@[jj] == wild_full(t@.skip(row as int), s@.skip(jj)),
            decreases j,
        {
            j -= 1;
            proof {
                lemma_unfold(t@, s@, row as int, j as int);
            }
            let after: bool = if j + 1 < n {
                next[j + 1]
            } else {
                next_end
            };
            let here_next: bool = next[j];
            let v: bool = match tok {
                WildTok::Any => after,
                WildTok::Lit(c) => s[j] == c && after,
                WildTok::Star => here_next || (if j + 1 < n {
                    cur[j + 1]
                } else {
                    cur_end
                }),
            };
            cur.set(j, v);
        }
        next = cur;
        next_end = cur_end;
        i = row;
    }
    assert(t@.skip(0) =~= t@);
    assert(s@.skip(0) =~= s@);
    if n > 0 {
        next[0]
    } else {
        next_end
    }
}

/// The first position at or after `k` where the pattern matches a prefix
/// of what follows in `s` (the end of `s` included).
pub fn first_match_exec(t: &Vec<WildTok>, s: &Vec<char>, k: usize) -> (r: Option<usize>)
    requires
        k <= s.len(),
    ensures
        match r {
            Some(p) => first_match_from(t@, s@, k as int) == Some(p as int),
            None => first_match_from(t@, s@, k as int) is None,
        },
{
    let n = s.len();
    let m = t.len();
    // Row `i` of the table: whether `t.skip(i)` matches a prefix of `s.skip(j)`,
    // for `j < n` in `next` and for `j == n` in `next_end`.
    let mut next: Vec<bool> = Vec::new();
    let mut j0: usize = 0;
    while j0 < n
        invariant
            j0 <= n,
            next.len() == j0,
            forall|jj: int| 0 <= jj < j0 ==> next@[jj] == true,
        decreases n - j0,
    {
        next.push(true);
        j0 += 1;
    }
    let mut next_end: bool = true;
    let mut i: usize = m;
    assert(t@.skip(m as int) =~= Seq::<WildTok>::empty());
    while i > 0
        invariant
            i <= m,
            m == t.len(),
            n == s.len(),
            next.len() == n,
            forall|jj: int| 0 <= jj < n ==> #[trigger] next@[jj] == wild_match(t@.skip(i as int), s@.skip(jj)),
            next_end == wild_match(t@.skip(i as int), s@.skip(n as int)),
        decreases i,
    {
        let row = i - 1;
        let tok = t[row];
        proof {
            lemma_unfold(t@, s@, row as int, n as int);
        }
        let cur_end: bool = match tok {
            WildTok::Star => next_end,
            _ => false,
        };
        let mut cur: Vec<bool> = Vec::new();
        let mut z: usize = 0;
        while z < n
            invariant
                z <= n,
                cur.len() == z,
            decreases n - z,
        {
            cur.push(false);
            z += 1;
        }
        let mut j: usize = n;
        while j > 0
            invariant
                j <= n,
                row < m,
                m == t.len(),
                n == s.len(),
                tok == t@[row as int],
                cur.len() == n,
                next.len() == n,
                forall|jj: int| 0 <= jj < n ==> #[trigger] next@[jj] == wild_match(t@.skip(row + 1), s@.skip(jj)),
                next_end == wild_match(t@.skip(row + 1), s@.skip(n as int)),
                cur_end == wild_match(t@.skip(row as int), s@.skip(n as int)),
                forall|jj: int| j <= jj < n ==> #[trigger] cur@[jj] == wild_match(t@.skip(row as int), s@.skip(jj)),
            decreases j,
        {
            j -= 1;
            proof {
                lemma_unfold(t@, s@, row as int, j as int);
            }
            let after: bool = if j + 1 < n {
                next[j + 1]
            } else {
                next_end
            };
            let here_next: bool = next[j];
            let v: bool = match tok {
                WildTok::Any => after,
                WildTok::Lit(c) => s[j] == c && after,
                WildTok::Star => here_next || (if j + 1 < n {
                    cur[j + 1]
                } else {
                    cur_end
                }),
            };
            cur.set(j, v);
        }
        next = cur;
        next_end = cur_end;
        i = row;
    }
    assert(t@.skip(0) =~= t@);
    let mut p: usize = k;
    while p < n
        invariant
            k <= p <= n,
            n == s.len(),
            next.len() == n,
            forall|jj: int| 0 <= jj < n ==> #[trigger] next@[jj] == wild_match(t@, s@.skip(jj)),
            next_end == wild_match(t@, s@.skip(n as int)),
            first_match_from(t@, s@, k as int) == first_match_from(t@, s@, p as int),
        decreases n - p,
    {
        if next[p] {
            return Some(p);
        }
        p += 1;
    }
    if next_end {
        Some(n)
    } else {
        assert(first_match_from(t@, s@, n + 1) is None);
        None
    }
}

/// A `*` matches any text, the empty one included.
pub proof fn lemma_star_matches_anything(s: Seq<char>)
    ensures
        wild_full(seq![WildTok::Star], s),
    decreases s.len(),
{
    let t = seq![WildTok::Star];
    assert(t.len() == 1 && t[0] == WildTok::Star);
    assert(t.skip(1) =~= Seq::<WildTok>::empty());
    if s.len() > 0 {
        lemma_star_matches_anything(s.skip(1));
        assert(wild_full(t, s) == (wild_full(t.skip(1), s) || (s.len() > 0 && wild_full(t, s.skip(1)))));
    } else {
        assert(wild_full(t.skip(1), s));
    }
}

/// `?` matches exactly the texts of one character, and a literal exactly
/// the text of that character.
pub proof fn lemma_single_tokens(c: char, s: Seq<char>)
    ensures
        wild_full(seq![WildTok::Any], s) <==> s.len() == 1,
        wild_full(seq![WildTok::Lit(c)], s) <==> s == seq![c],
{
    let a = seq![WildTok::Any];
    let l = seq![WildTok::Lit(c)];
    assert(a.len() == 1 && a[0] == WildTok::Any);
    assert(l.len() == 1 && l[0] == WildTok::Lit(c));
    assert(a.skip(1) =~= Seq::<WildTok>::empty());
    assert(l.skip(1) =~= Seq::<WildTok>::empty());
    assert(wild_full(a, s) == (s.len() > 0 && wild_full(a.skip(1), s.skip(1))));
    assert(wild_full(l, s) == (s.len() > 0 && s[0] == c && wild_full(l.skip(1), s.skip(1))));
    if s.len() > 0 {
        assert(wild_full(a.skip(1), s.skip(1)) == (s.skip(1).len() == 0));
        if s.len() == 1 {
            assert(s =~= seq![s[0]]);
        }
    }
    if s == seq![c] {
        assert(s.len() == 1);
    }
}

/// Patterns match piece by piece: when `t1` matches `s1` and `t2` matches
/// `s2`, the pattern `t1` followed by `t2` matches `s1` followed by `s2`.
pub proof fn lemma_match_concat(t1: Seq<WildTok>, s1: Seq<char>, t2: Seq<WildTok>, s2: Seq<char>)
    requires
        wild_full(t1, s1),
        wild_full(t2, s2),
    ensures
        wild_full(t1 + t2, s1 + s2),
    decreases t1.len(), s1.len(),
{
    if t1.len() == 0 {
        assert(t1 + t2 =~= t2);
        assert(s1 + s2 =~= s2);
    } else {
        let t = t1 + t2;
        let s = s1 + s2;
        assert(t[0] == t1[0]);
        assert(t.skip(1) =~= t1.skip(1) + t2);
        match t1[0] {
            WildTok::Star => {
                if wild_full(t1.skip(1), s1) {
                    lemma_match_concat(t1.skip(1), s1, t2, s2);
                } else {
                    lemma_match_concat(t1, s1.skip(1), t2, s2);
                    assert(s.skip(1) =~= s1.skip(1) + s2);
                }
            },
            _ => {
                lemma_match_concat(t1.skip(1), s1.skip(1), t2, s2);
                assert(s.skip(1) =~= s1.skip(1) + s2);
                assert(s[0] == s1[0]);
            },
        }
    }
}

/// A `*` stands for any gap: when `t1` matches `s1` and `t2` matches `s2`,
/// `t1`, `*`, `t2` matches `s1`, any text `m`, `s2`; in particular a pattern
/// with a `*` added at its end still matches every text it matched.
pub proof fn lemma_star_gap(t1: Seq<WildTok>, s1: Seq<char>, m: Seq<char>, t2: Seq<WildTok>, s2: Seq<char>)
    requires
        wild_full(t1, s1),
        wild_full(t2, s2),
    ensures
        wild_full(t1 + seq![WildTok::Star] + t2, s1 + m + s2),
        wild_full(t1 + seq![WildTok::Star], s1 + m),
        wild_full(t1 + seq![WildTok::Star], s1),
{
    lemma_star_matches_anything(m);
    lemma_star_matches_anything(Seq::<char>::empty());
    lemma_match_concat(t1, s1, seq![WildTok::Star], m);
    lemma_match_concat(t1 + seq![WildTok::Star], s1 + m, t2, s2);
    lemma_match_concat(t1, s1, seq![WildTok::Star], Seq::<char>::empty());
    assert(s1 + Seq::<char>::empty() =~= s1);
}

} // verus!
