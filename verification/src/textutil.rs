use vstd::prelude::*;

verus! {

/// `d` occurs in `s` starting at position `i`.
pub open spec fn occurs_at<T>(s: Seq<T>, d: Seq<T>, i: int) -> bool {
    0 <= i && i + d.len() <= s.len() && s.subrange(i, i + d.len()) == d
}

/// The first position at or after `k` where `d` occurs in `s`.
pub open spec fn find_from<T>(s: Seq<T>, d: Seq<T>, k: int) -> Option<int>
    decreases s.len() + 1 - k,
{
    if k < 0 || k + d.len() > s.len() {
        None
    } else if occurs_at(s, d, k) {
        Some(k)
    } else {
        find_from(s, d, k + 1)
    }
}

pub proof fn lemma_find_from<T>(s: Seq<T>, d: Seq<T>, k: int)
    requires
        k >= 0,
    ensures
        match find_from(s, d, k) {
            Some(p) => k <= p && occurs_at(s, d, p) && forall|q: int|
                k <= q < p ==> !occurs_at(s, d, q),
            None => forall|q: int| k <= q ==> !occurs_at(s, d, q),
        },
    decreases s.len() + 1 - k,
{
    if k + d.len() > s.len() {
    } else if !occurs_at(s, d, k) {
        lemma_find_from(s, d, k + 1);
    }
}

/// Whether `d` occurs in `s` at position `i` (`i + d.len() <= s.len()`).
pub fn occurs_at_exec(s: &Vec<char>, d: &Vec<char>, i: usize) -> (b: bool)
    requires
        i + d.len() <= s.len(),
    ensures
        b == occurs_at(s@, d@, i as int),
{
    let mut j: usize = 0;
    while j < d.len()
        invariant
            j <= d.len(),
            i + d.len() <= s.len(),
            forall|m: int| 0 <= m < j ==> s@[i + m] == d@[m],
        decreases d.len() - j,
    {
        if s[i + j] != d[j] {
            assert(s@.subrange(i as int, i + d.len())[j as int] != d@[j as int]);
            return false;
        }
        j += 1;
    }
    assert(s@.subrange(i as int, i + d.len()) =~= d@);
    true
}

/// The first position at or after `k` where `d` occurs in `s`.
pub fn find_from_exec(s: &Vec<char>, d: &Vec<char>, k: usize) -> (r: Option<usize>)
    ensures
        match r {
            Some(p) => find_from(s@, d@, k as int) == Some(p as int),
            None => find_from(s@, d@, k as int) is None,
        },
{
    let mut i = k;
    if d.len() > s.len() {
        return None;
    }
    if d.len() == 0 {
        if k <= s.len() {
            assert(s@.subrange(k as int, k as int) =~= d@);
            return Some(k);
        }
        return None;
    }
    let last = s.len() - d.len();
    while i <= last
        invariant
            k <= i,
            1 <= d.len() <= s.len(),
            last == s.len() - d.len(),
            find_from(s@, d@, k as int) == find_from(s@, d@, i as int),
        decreases last + 1 - i,
    {
        if occurs_at_exec(s, d, i) {
            return Some(i);
        }
        i += 1;
    }
    None
}


/// The pieces of `s` from position `k` on, cut at each occurrence of `d`
/// found from left to right (`str::split` with a non-empty text pattern).
pub open spec fn split_from(s: Seq<char>, d: Seq<char>, k: int) -> Seq<Seq<char>>
    decreases s.len() + 1 - k,
{
    if d.len() == 0 || k < 0 || k > s.len() {
        seq![s.skip(k)]
    } else {
        match find_from(s, d, k) {
            None => seq![s.skip(k)],
            Some(p) => if k <= p && p + d.len() <= s.len() {
                seq![s.subrange(k, p)] + split_from(s, d, p + d.len())
            } else {
                seq![]
            },
        }
    }
}

/// The pieces of `s` between the occurrences of `d`.
pub open spec fn split(s: Seq<char>, d: Seq<char>) -> Seq<Seq<char>> {
    split_from(s, d, 0)
}

pub open spec fn pieces_view(v: Seq<Vec<char>>) -> Seq<Seq<char>> {
    v.map_values(|p: Vec<char>| p@)
}

/// The characters of `s` in `a..b`.
pub fn slice_chars(s: &Vec<char>, a: usize, b: usize) -> (r: Vec<char>)
    requires
        a <= b <= s.len(),
    ensures
        r@ == s@.subrange(a as int, b as int),
{
    let mut r: Vec<char> = Vec::new();
    let mut i = a;
    while i < b
        invariant
            a <= i <= b <= s.len(),
            r@ == s@.subrange(a as int, i as int),
        decreases b - i,
    {
        r.push(s[i]);
        assert(r@ =~= s@.subrange(a as int, i + 1));
        i += 1;
    }
    r
}

/// The pieces of `s` between the occurrences of the non-empty `d`.
pub fn split_chars(s: &Vec<char>, d: &Vec<char>) -> (r: Vec<Vec<char>>)
    requires
        d.len() > 0,
    ensures
        pieces_view(r@) == split(s@, d@),
{
    let mut out: Vec<Vec<char>> = Vec::new();
    let mut k: usize = 0;
    loop
        invariant
            d.len() > 0,
            k <= s.len(),
            pieces_view(out@) + split_from(s@, d@, k as int) == split(s@, d@),
        decreases s.len() + 1 - k,
    {
        let ghost before = pieces_view(out@);
        match find_from_exec(s, d, k) {
            None => {
                let piece = slice_chars(s, k, s.len());
                assert(piece@ =~= s@.skip(k as int));
                out.push(piece);
                assert(pieces_view(out@) =~= before + split_from(s@, d@, k as int));
                return out;
            },
            Some(p) => {
                proof {
                    lemma_find_from(s@, d@, k as int);
                }
                let piece = slice_chars(s, k, p);
                out.push(piece);
                assert(pieces_view(out@) =~= before.push(s@.subrange(k as int, p as int)));
                assert(pieces_view(out@) + split_from(s@, d@, (p + d.len()) as int) =~= before
                    + split_from(s@, d@, k as int));
                k = p + d.len();
            },
        }
    }
}

/// The texts joined with `sep` between them.
pub open spec fn join(parts: Seq<Seq<char>>, sep: Seq<char>) -> Seq<char>
    decreases parts.len(),
{
    if parts.len() == 0 {
        seq![]
    } else if parts.len() == 1 {
        parts[0]
    } else {
        join(parts.drop_last(), sep) + sep + parts.last()
    }
}


/// The position of the `n`-th occurrence of `d` in `s` at or after `k`,
/// the occurrences taken from left to right without overlapping.
pub open spec fn nth_from(s: Seq<char>, d: Seq<char>, k: int, n: int) -> Option<int>
    decreases n,
{
    if n <= 0 {
        None
    } else {
        match find_from(s, d, k) {
            None => None,
            Some(p) => if n == 1 {
                Some(p)
            } else {
                nth_from(s, d, p + d.len(), n - 1)
            },
        }
    }
}

/// The last position `p` with `p + d.len() <= e` at which `d` occurs in `s`.
pub open spec fn rfind_upto(s: Seq<char>, d: Seq<char>, e: int) -> Option<int>
    decreases e,
{
    if e < d.len() || e < 0 {
        None
    } else if occurs_at(s, d, e - d.len()) {
        Some(e - d.len())
    } else if e > 0 {
        rfind_upto(s, d, e - 1)
    } else {
        None
    }
}

/// The position of the `n`-th occurrence of `d` in `s.take(e)` counted from
/// the end, the occurrences taken from right to left without overlapping.
pub open spec fn nth_back(s: Seq<char>, d: Seq<char>, e: int, n: int) -> Option<int>
    decreases n,
{
    if n <= 0 {
        None
    } else {
        match rfind_upto(s, d, e) {
            None => None,
            Some(p) => if n == 1 {
                Some(p)
            } else {
                nth_back(s, d, p, n - 1)
            },
        }
    }
}

proof fn lemma_nth_from_empty(s: Seq<char>, d: Seq<char>, k: int, n: int)
    requires
        d.len() == 0,
        0 <= k <= s.len(),
        n >= 1,
    ensures
        nth_from(s, d, k, n) == Some(k),
    decreases n,
{
    assert(s.subrange(k, k) =~= d);
    if n > 1 {
        lemma_nth_from_empty(s, d, k, n - 1);
    }
}

proof fn lemma_nth_back_empty(s: Seq<char>, d: Seq<char>, e: int, n: int)
    requires
        d.len() == 0,
        0 <= e <= s.len(),
        n >= 1,
    ensures
        nth_back(s, d, e, n) == Some(e),
    decreases n,
{
    assert(s.subrange(e, e) =~= d);
    if n > 1 {
        lemma_nth_back_empty(s, d, e, n - 1);
    }
}

proof fn lemma_find_from_bound(s: Seq<char>, d: Seq<char>, k: int)
    requires
        k >= 0,
    ensures
        match find_from(s, d, k) {
            Some(p) => k <= p && p + d.len() <= s.len(),
            None => true,
        },
{
    lemma_find_from(s, d, k);
}

/// The position of the `n`-th occurrence of `d` in `s` from the start.
pub fn nth_from_exec(s: &Vec<char>, d: &Vec<char>, n: u32) -> (r: Option<usize>)
    requires
        n >= 1,
    ensures
        match r {
            Some(p) => nth_from(s@, d@, 0, n as int) == Some(p as int),
            None => nth_from(s@, d@, 0, n as int) is None,
        },
{
    if d.len() == 0 {
        proof {
            lemma_nth_from_empty(s@, d@, 0, n as int);
        }
        return Some(0);
    }
    let mut k: usize = 0;
    let mut left: u32 = n;
    loop
        invariant
            d.len() > 0,
            k <= s.len(),
            1 <= left <= n,
            nth_from(s@, d@, 0, n as int) == nth_from(s@, d@, k as int, left as int),
        decreases s.len() + 1 - k,
    {
        proof {
            lemma_find_from_bound(s@, d@, k as int);
        }
        match find_from_exec(s, d, k) {
            None => return None,
            Some(p) => {
                if left == 1 {
                    return Some(p);
                }
                k = p + d.len();
                left = left - 1;
            },
        }
    }
}

/// The last position `p` with `p + d.len() <= e` at which `d` occurs in `s`.
pub fn rfind_upto_exec(s: &Vec<char>, d: &Vec<char>, e: usize) -> (r: Option<usize>)
    requires
        e <= s.len(),
    ensures
        match r {
            Some(p) => rfind_upto(s@, d@, e as int) == Some(p as int),
            None => rfind_upto(s@, d@, e as int) is None,
        },
{
    if e < d.len() {
        return None;
    }
    let mut p: usize = e - d.len();
    loop
        invariant
            p + d.len() <= e <= s.len(),
            rfind_upto(s@, d@, e as int) == rfind_upto(s@, d@, p + d.len()),
        decreases p,
    {
        if occurs_at_exec(s, d, p) {
            return Some(p);
        }
        if p == 0 {
            assert(d.len() > 0) by {
                if d.len() == 0 {
                    assert(s@.subrange(0, 0) =~= d@);
                }
            }
            assert(rfind_upto(s@, d@, d.len() - 1) is None);
            assert(rfind_upto(s@, d@, d.len() as int) is None);
            return None;
        }
        p -= 1;
    }
}

/// The position of the `n`-th occurrence of `d` in `s` from the end.
pub fn nth_back_exec(s: &Vec<char>, d: &Vec<char>, n: u32) -> (r: Option<usize>)
    requires
        n >= 1,
    ensures
        match r {
            Some(p) => nth_back(s@, d@, s.len() as int, n as int) == Some(p as int),
            None => nth_back(s@, d@, s.len() as int, n as int) is None,
        },
{
    if d.len() == 0 {
        proof {
            lemma_nth_back_empty(s@, d@, s.len() as int, n as int);
        }
        return Some(s.len());
    }
    let mut e: usize = s.len();
    let mut left: u32 = n;
    loop
        invariant
            d.len() > 0,
            e <= s.len(),
            1 <= left <= n,
            nth_back(s@, d@, s.len() as int, n as int) == nth_back(s@, d@, e as int, left as int),
        decreases e,
    {
        match rfind_upto_exec(s, d, e) {
            None => return None,
            Some(p) => {
                if left == 1 {
                    return Some(p);
                }
                proof {
                    lemma_rfind_upto_bound(s@, d@, e as int);
                }
                e = p;
                left = left - 1;
            },
        }
    }
}

proof fn lemma_rfind_upto_bound(s: Seq<char>, d: Seq<char>, e: int)
    ensures
        match rfind_upto(s, d, e) {
            Some(p) => 0 <= p && p + d.len() <= e,
            None => true,
        },
    decreases e,
{
    if e < d.len() || e < 0 {
    } else if occurs_at(s, d, e - d.len()) {
    } else if e > 0 {
        lemma_rfind_upto_bound(s, d, e - 1);
    }
}


/// Whether the bytes `d` occur in `s` at position `i` (`i + d.len() <= s.len()`).
pub fn occurs_at_bytes(s: &[u8], d: &[u8], i: usize) -> (b: bool)
    requires
        i + d.len() <= s.len(),
    ensures
        b == occurs_at(s@, d@, i as int),
{
    let mut j: usize = 0;
    while j < d.len()
        invariant
            j <= d.len(),
            i + d.len() <= s.len(),
            forall|m: int| 0 <= m < j ==> s@[i + m] == d@[m],
        decreases d.len() - j,
    {
        if s[i + j] != d[j] {
            assert(s@.subrange(i as int, i + d@.len())[j as int] != d@[j as int]);
            return false;
        }
        j += 1;
    }
    assert(s@.subrange(i as int, i + d@.len()) =~= d@);
    true
}

/// The first byte position at or after `k` where the bytes `d` occur in `s`.
pub fn find_from_bytes(s: &[u8], d: &[u8], k: usize) -> (r: Option<usize>)
    ensures
        match r {
            Some(p) => find_from(s@, d@, k as int) == Some(p as int),
            None => find_from(s@, d@, k as int) is None,
        },
{
    if d.len() > s.len() {
        return None;
    }
    if d.len() == 0 {
        if k <= s.len() {
            assert(s@.subrange(k as int, k as int) =~= d@);
            return Some(k);
        }
        return None;
    }
    let last = s.len() - d.len();
    let mut i = k;
    while i <= last
        invariant
            k <= i,
            1 <= d.len() <= s.len(),
            last == s.len() - d.len(),
            find_from(s@, d@, k as int) == find_from(s@, d@, i as int),
        decreases last + 1 - i,
    {
        if occurs_at_bytes(s, d, i) {
            return Some(i);
        }
        i += 1;
    }
    None
}

} // verus!
