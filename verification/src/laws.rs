//! Properties that relate several functions of the library to one another.
use vstd::prelude::*;

use crate::dynamic_arrays::{
    block, block_result, ceil_div, drop_empty, near_candidate, nearer, nearest, drop_range, empty_text, hstack_row, max_int, min_int, pieces,
    split_lines, take_range, width, wrap_rows_grid,
};
use crate::model::is_error;
use crate::compare::{Order, compare_nodes, lemma_compare_reverse, lemma_compare_trans, orderable};
use crate::number::SCALE;
use crate::number::Number;
use crate::strings::lowercase;
use crate::values::{CalcResult, ErrorKind, grid_view, spec_to_grid};
use crate::wildcard::{WildTok, first_match_from, wild_match, wild_tokens, escapable};
use crate::lambda_helpers::{folds, lemma_fold_single, single_valued};
use crate::text::{
    delimiter_at, find_position, left_chars, lead, mid_chars, position_result, right_chars, search_position, start_of,
    start_past_end, start_too_small, text_after, text_before, text_value, trail, trimmed, white_space,
};
use crate::text_bytes::{asc_code, asc_of, jis_code, jis_of};
use crate::textutil::{find_from, join, lemma_find_from, nth_back, nth_from, occurs_at, rfind_upto, split, split_from};
use crate::values::{ArrayNode, NodeV};

verus! {

/// CODE gives back the code CHAR was given: the character CHAR makes for a
/// code from 1 to 255 has that code.
pub proof fn lemma_code_of_char(code: int)
    requires
        1 <= code <= 255,
    ensures
        ((code as u8) as char) as u32 == code,
{
}

/// ASC undoes JIS on a text without full-width forms or ideographic
/// spaces: every character comes back with its own code.
pub proof fn lemma_asc_undoes_jis(s: Seq<char>, t: Seq<char>, u: Seq<char>)
    requires
        jis_of(s, t),
        asc_of(t, u),
        forall|i: int|
            0 <= i < s.len() ==> !(0xFF01 <= #[trigger] (s[i] as u32) <= 0xFF5E) && (s[i] as u32) != 0x3000,
    ensures
        u.len() == s.len(),
        forall|i: int| 0 <= i < s.len() ==> #[trigger] (u[i] as u32) == (s[i] as u32),
{
    assert forall|i: int| 0 <= i < s.len() implies #[trigger] (u[i] as u32) == (s[i] as u32) by {
        assert((t[i] as u32) == jis_code(s[i] as u32));
        assert((u[i] as u32) == asc_code(t[i] as u32));
    }
}

proof fn lemma_join_split_from(s: Seq<char>, d: Seq<char>, k: int)
    requires
        d.len() > 0,
        0 <= k <= s.len(),
    ensures
        join(split_from(s, d, k), d) == s.skip(k),
    decreases s.len() + 1 - k,
{
    lemma_find_from(s, d, k);
    match find_from(s, d, k) {
        None => {
            assert(split_from(s, d, k) == seq![s.skip(k)]);
        },
        Some(p) => {
            let rest = split_from(s, d, p + d.len());
            lemma_join_split_from(s, d, p + d.len());
            lemma_split_from_nonempty(s, d, p + d.len());
            lemma_join_prepend(s.subrange(k, p), rest, d);
            assert(s.subrange(p, p + d.len()) == d);
            assert(s.subrange(k, p) + d + s.skip(p + d.len()) =~= s.skip(k));
        },
    }
}

proof fn lemma_split_from_nonempty(s: Seq<char>, d: Seq<char>, k: int)
    requires
        d.len() > 0,
        0 <= k <= s.len(),
    ensures
        split_from(s, d, k).len() > 0,
    decreases s.len() + 1 - k,
{
    lemma_find_from(s, d, k);
}

/// Joining `first` in front of the pieces `rest` adds `first` and a
/// separator in front of their join.
proof fn lemma_join_prepend(first: Seq<char>, rest: Seq<Seq<char>>, d: Seq<char>)
    requires
        rest.len() > 0,
    ensures
        join(seq![first] + rest, d) == first + d + join(rest, d),
    decreases rest.len(),
{
    let all = seq![first] + rest;
    assert(all.drop_last().len() >= 1);
    if rest.len() == 1 {
        assert(all.drop_last() =~= seq![first]);
        assert(all.last() == rest[0]);
        assert(join(seq![first], d) == first);
        assert(join(rest, d) == rest[0]);
        assert(join(all, d) == join(all.drop_last(), d) + d + all.last());
    } else {
        lemma_join_prepend(first, rest.drop_last(), d);
        assert(all.drop_last() =~= seq![first] + rest.drop_last());
        assert(all.last() == rest.last());
        assert(join(all, d) == join(all.drop_last(), d) + d + all.last());
        assert(join(rest, d) == join(rest.drop_last(), d) + d + rest.last());
        assert(first + d + join(rest.drop_last(), d) + d + rest.last() =~= first + d + (join(
            rest.drop_last(),
            d,
        ) + d + rest.last()));
    }
}

/// Joining the pieces of a text cut at a non-empty delimiter with that
/// delimiter gives the text back: TEXTJOIN undoes TEXTSPLIT, and
/// SUBSTITUTE of a text by itself changes nothing.
pub proof fn lemma_join_of_split(s: Seq<char>, d: Seq<char>)
    requires
        d.len() > 0,
    ensures
        join(split(s, d), d) == s,
{
    lemma_join_split_from(s, d, 0);
    assert(s.skip(0) =~= s);
}

/// LEFT and RIGHT of complementary lengths put back together the text.
pub proof fn lemma_left_right(s: Seq<char>, n: int)
    requires
        0 <= n <= s.len(),
    ensures
        left_chars(s, n) + right_chars(s, s.len() - n) == s,
{
    assert(left_chars(s, n) + right_chars(s, s.len() - n) =~= s);
}

/// MID from the first character for the whole length is the text itself.
pub proof fn lemma_mid_whole(s: Seq<char>)
    ensures
        mid_chars(s, 1, s.len() as int) == s,
{
    assert(mid_chars(s, 1, s.len() as int) =~= s);
}

proof fn lemma_lead_facts(s: Seq<char>, i: int)
    requires
        0 <= i <= s.len(),
    ensures
        i <= lead(s, i) <= s.len(),
        forall|j: int| i <= j < lead(s, i) ==> white_space(#[trigger] s[j]),
        lead(s, i) < s.len() ==> !white_space(s[lead(s, i)]),
    decreases s.len() - i,
{
    if i < s.len() && white_space(s[i]) {
        lemma_lead_facts(s, i + 1);
    }
}

proof fn lemma_trail_facts(s: Seq<char>, j: int)
    requires
        0 <= j <= s.len(),
    ensures
        0 <= trail(s, j) <= j,
        forall|k: int| trail(s, j) <= k < j ==> white_space(#[trigger] s[k]),
        trail(s, j) > 0 ==> !white_space(s[trail(s, j) - 1]),
    decreases j,
{
    if 0 < j && white_space(s[j - 1]) {
        lemma_trail_facts(s, j - 1);
    }
}

proof fn lemma_lead_at(s: Seq<char>, i: int, a: int)
    requires
        0 <= i <= a <= s.len(),
        forall|j: int| i <= j < a ==> white_space(#[trigger] s[j]),
        a < s.len() ==> !white_space(s[a]),
    ensures
        lead(s, i) == a,
    decreases a - i,
{
    if i < a {
        lemma_lead_at(s, i + 1, a);
    }
}

proof fn lemma_trail_at(s: Seq<char>, j: int, b: int)
    requires
        0 <= b <= j <= s.len(),
        forall|k: int| b <= k < j ==> white_space(#[trigger] s[k]),
        b > 0 ==> !white_space(s[b - 1]),
    ensures
        trail(s, j) == b,
    decreases j - b,
{
    if b < j {
        lemma_trail_at(s, j - 1, b);
    }
}

/// TRIM of a trimmed text changes nothing.
pub proof fn lemma_trim_idempotent(s: Seq<char>)
    ensures
        trimmed(trimmed(s)) == trimmed(s),
{
    lemma_lead_facts(s, 0);
    lemma_trail_facts(s, s.len() as int);
    let a = lead(s, 0);
    let b = trail(s, s.len() as int);
    let t = trimmed(s);
    if a < b {
        assert(t == s.subrange(a, b));
        assert(!white_space(t[0]));
        assert(!white_space(t[t.len() - 1]));
        lemma_lead_at(t, 0, 0);
        lemma_trail_at(t, t.len() as int, t.len() as int);
        assert(t.subrange(0, t.len() as int) =~= t);
    } else {
        assert(t.len() == 0);
        assert(lead(t, 0) == 0);
        assert(trail(t, 0) == 0);
    }
}

/// When the lambda gives one result for each pair of arguments, the last
/// value SCAN places is the value REDUCE gives: both fold the lambda over the
/// same elements from the same start.
pub proof fn lemma_scan_ends_with_reduce<F: Fn(ArrayNode, ArrayNode) -> ArrayNode>(
    f: F,
    init: ArrayNode,
    items: Seq<ArrayNode>,
    scanned: Seq<ArrayNode>,
    steps: Seq<ArrayNode>,
)
    requires
        single_valued(f),
        folds(f, init, items, seq![init] + scanned),
        folds(f, init, items, steps),
        scanned.len() > 0,
    ensures
        steps.last() == scanned.last(),
{
    lemma_fold_single(f, init, items, seq![init] + scanned, steps);
    assert((seq![init] + scanned).last() == scanned.last());
}

/// FIND's position points at an occurrence of the searched text, and no
/// occurrence starts between the start position and it.
pub proof fn lemma_find_points_at_occurrence(s: Seq<char>, d: Seq<char>, start: int)
    ensures
        find_position(s, d, start) matches Some(p) ==> {
            let k = if start > 0 {
                start - 1
            } else {
                0
            };
            &&& occurs_at(s, d, p - 1)
            &&& forall|q: int| k <= q < p - 1 ==> !occurs_at(s, d, q)
        },
{
    let k = if start > 0 {
        start - 1
    } else {
        0
    };
    lemma_find_from(s, d, k);
}

/// WRAPROWS keeps the elements in order: the element at position `k` of the
/// vector sits in row `k / w`, column `k % w`.
pub proof fn lemma_wraprows_places(items: Seq<NodeV>, w: int, pad: NodeV, k: int)
    requires
        w >= 1,
        0 <= k < items.len(),
    ensures
        k / w < wrap_rows_grid(items, w, pad).len(),
        wrap_rows_grid(items, w, pad)[k / w][k % w] == items[k],
{
    let n = items.len() as int;
    assert(k == (k / w) * w + k % w && 0 <= k % w < w) by (nonlinear_arith)
        requires
            w >= 1,
            k >= 0,
    ;
    assert(k / w < ceil_div(n, w)) by (nonlinear_arith)
        requires
            w >= 1,
            0 <= k < n,
    ;
}


proof fn lemma_block_join(d: Seq<Seq<NodeV>>, a: int, b: int, c: int, cs: int, ce: int)
    requires
        0 <= a <= b <= c <= d.len(),
    ensures
        block(d, a, b, cs, ce) + block(d, b, c, cs, ce) == block(d, a, c, cs, ce),
{
    assert(block(d, a, b, cs, ce) + block(d, b, c, cs, ce) =~= block(d, a, c, cs, ce));
}

/// TAKE and DROP with the same row count split the rows of an array between
/// them: for a count from the start what TAKE keeps followed by what DROP
/// keeps is every row, for a count from the end what DROP keeps comes first
/// (with the same columns kept in both).
pub proof fn lemma_take_drop_split_rows(d: Seq<Seq<NodeV>>, k: int, cs: int, ce: int)
    ensures
        ({
            let n = d.len() as int;
            let t = take_range(n, k);
            let r = drop_range(n, k);
            if k >= 0 {
                block(d, t.0, t.1, cs, ce) + block(d, r.0, r.1, cs, ce) == block(d, 0, n, cs, ce)
            } else {
                block(d, r.0, r.1, cs, ce) + block(d, t.0, t.1, cs, ce) == block(d, 0, n, cs, ce)
            }
        }),
{
    let n = d.len() as int;
    if k >= 0 {
        lemma_block_join(d, 0, min_int(k, n), n, cs, ce);
    } else {
        lemma_block_join(d, 0, max_int(n + k, 0), n, cs, ce);
    }
}

/// TEXTBEFORE, the delimiter and TEXTAFTER put the text back together when
/// the delimiter occurs in it (first occurrence, case-sensitive): the text
/// is cut at the first place the delimiter starts.
pub proof fn lemma_before_after_rebuild(s: Seq<char>, d: Seq<char>)
    requires
        find_from(s, d, 0) is Some,
    ensures
        text_before(s, d, 1, false) matches Some(b) && text_after(s, d, 1, false) matches Some(a) && b + d + a == s
            && b.len() == find_from(s, d, 0)->Some_0,
{
    lemma_find_from(s, d, 0);
    let p = find_from(s, d, 0)->Some_0;
    assert(text_before(s, d, 1, false) == Some(s.take(p)));
    assert(text_after(s, d, 1, false) == Some(s.skip(p + d.len())));
    assert(s.take(p) + d + s.skip(p + d.len()) =~= s);
}

/// UNICODE gives back the code UNICHAR was given: for a text of the one
/// character whose code is `code` (what UNICHAR gives), UNICODE reads the
/// text and its first character has that code.
pub proof fn lemma_unicode_of_unichar(r: CalcResult, code: u32)
    requires
        r is Text,
        r->Text_0@.len() == 1,
        r->Text_0@[0] as u32 == code,
    ensures
        text_value(r) matches Ok(t) && t.len() > 0 && (t[0] as u32) * SCALE == code * SCALE,
{
}

/// The rows of the array are all as long as the first.
pub open spec fn rectangular(d: Seq<Seq<NodeV>>) -> bool {
    forall|i: int| 0 <= i < d.len() ==> #[trigger] d[i].len() == width(d)
}

/// TAKE and DROP with the same row count (and no column count) split a
/// rectangular array between them: for a count from the start, what TAKE
/// gives followed by what DROP gives is the array; for a count from the
/// end, what DROP gives comes first. `t` and `u` are what TAKE and DROP
/// give, as their contracts state.
pub proof fn lemma_take_drop_whole(array: CalcResult, k: int, t: CalcResult, u: CalcResult)
    requires
        spec_to_grid(array) matches Ok(d) && rectangular(d) && (0 < k < d.len() || 0 < -k < d.len()),
        spec_to_grid(array) matches Ok(d) && {
            let n = d.len() as int;
            let tr = take_range(n, k);
            let dr = drop_range(n, k);
            let tc = take_range(width(d), width(d));
            let dc = drop_range(width(d), 0);
            &&& block_result(t, block(d, tr.0, tr.1, tc.0, tc.1))
            &&& block_result(u, block(d, dr.0, dr.1, dc.0, dc.1))
        },
    ensures
        t is Array,
        u is Array,
        k > 0 ==> grid_view(t->Array_0) + grid_view(u->Array_0) == spec_to_grid(array)->Ok_0,
        k < 0 ==> grid_view(u->Array_0) + grid_view(t->Array_0) == spec_to_grid(array)->Ok_0,
{
    let d = spec_to_grid(array)->Ok_0;
    let n = d.len() as int;
    let w = width(d);
    lemma_take_drop_split_rows(d, k, 0, w);
    assert forall|i: int| 0 <= i < n implies #[trigger] block(d, 0, n, 0, w)[i] == d[i] by {
        assert(d[i].len() == w);
        assert(block(d, 0, n, 0, w)[i] =~= d[i]);
    }
    assert(block(d, 0, n, 0, w) =~= d);
    assert(take_range(w, w) == (0int, w));
    assert(drop_range(w, 0) == (0int, w));
    let tr = take_range(n, k);
    let dr = drop_range(n, k);
    assert(block(d, tr.0, tr.1, 0, w).len() > 0);
    assert(block(d, dr.0, dr.1, 0, w).len() > 0);
}

/// DROP of at least as many rows as the array has gives `#CALC!`.
pub proof fn lemma_drop_everything(d: Seq<Seq<NodeV>>, k: int, cs: int, ce: int, u: CalcResult)
    requires
        k >= d.len(),
        block_result(u, block(d, drop_range(d.len() as int, k).0, drop_range(d.len() as int, k).1, cs, ce)),
    ensures
        is_error(u, ErrorKind::Calc),
{
}

/// The pattern has no wildcard and no tilde escape.
pub open spec fn plain(p: Seq<char>) -> bool {
    forall|i: int| 0 <= i < p.len() ==> !escapable(#[trigger] p[i])
}

proof fn lemma_plain_skip(p: Seq<char>)
    requires
        plain(p),
        p.len() > 0,
    ensures
        plain(p.skip(1)),
        !escapable(p[0]),
        wild_tokens(p) == seq![WildTok::Lit(p[0])] + wild_tokens(p.skip(1)),
{
    assert(!escapable(p[0]));
    assert forall|i: int| 0 <= i < p.skip(1).len() implies !escapable(#[trigger] p.skip(1)[i]) by {
        assert(p.skip(1)[i] == p[i + 1]);
    }
}

proof fn lemma_literals_match(p: Seq<char>, s: Seq<char>)
    requires
        plain(p),
    ensures
        wild_match(wild_tokens(p), s) == (p.len() <= s.len() && s.take(p.len() as int) == p),
    decreases p.len(),
{
    if p.len() > 0 {
        lemma_plain_skip(p);
        let t = wild_tokens(p);
        assert(t[0] == WildTok::Lit(p[0]));
        assert(t.skip(1) =~= wild_tokens(p.skip(1)));
        if s.len() > 0 {
            lemma_literals_match(p.skip(1), s.skip(1));
            if p.len() <= s.len() && s.take(p.len() as int) == p {
                assert(s[0] == s.take(p.len() as int)[0]);
                assert(s.skip(1).take(p.skip(1).len() as int) =~= p.skip(1));
            }
            if s[0] == p[0] && p.skip(1).len() <= s.skip(1).len() && s.skip(1).take(p.skip(1).len() as int) == p.skip(
                1,
            ) {
                assert forall|i: int| 0 <= i < p.len() implies #[trigger] s.take(p.len() as int)[i] == p[i] by {
                    if i > 0 {
                        assert(s.skip(1).take(p.skip(1).len() as int)[i - 1] == p.skip(1)[i - 1]);
                    }
                }
                assert(s.take(p.len() as int) =~= p);
            }
        }
    } else {
        assert(s.take(0) =~= p);
    }
}

proof fn lemma_first_literal_match(p: Seq<char>, s: Seq<char>, k: int)
    requires
        plain(p),
        0 <= k,
    ensures
        first_match_from(wild_tokens(p), s, k) == find_from(s, p, k),
    decreases s.len() + 1 - k,
{
    if k <= s.len() {
        lemma_literals_match(p, s.skip(k));
        if k + p.len() <= s.len() {
            assert(s.skip(k).take(p.len() as int) =~= s.subrange(k, k + p.len()));
        }
        lemma_first_literal_match(p, s, k + 1);
    }
}

/// SEARCH is FIND made case-insensitive: for a searched text without `?`,
/// `*` or `~`, where SEARCH finds the lower-cased text in the lower-cased
/// text searched is where FIND finds it.
pub proof fn lemma_search_is_find_ignoring_case(f: Seq<char>, w: Seq<char>, start: int)
    requires
        plain(f),
    ensures
        search_position(f, w, start) == find_position(w, f, start),
{
    let k = if start > 0 {
        start - 1
    } else {
        0
    };
    lemma_first_literal_match(f, w, k);
    lemma_find_from(w, f, k);
}

/// SEARCH is FIND made case-insensitive: when the lower-cased searched text
/// has no `?`, `*` or `~`, and lower-casing keeps the number of bytes of the
/// text searched in, SEARCH of the texts gives what FIND gives for the
/// lower-cased texts (the same position, or the same `#VALUE!`). `r` and `q`
/// are what SEARCH and FIND give, as their contracts state.
pub proof fn lemma_search_as_find(
    f: &str,
    w: &str,
    lf: &str,
    lw: &str,
    start_num: Option<Number>,
    r: CalcResult,
    q: CalcResult,
)
    requires
        lf@ == lowercase(f@),
        lw@ == lowercase(w@),
        plain(lf@),
        lw.len() == w.len(),
        if start_too_small(start_num) || start_past_end(w, start_of(start_num)) {
            r == CalcResult::Error(ErrorKind::Value)
        } else {
            position_result(r, search_position(lowercase(f@), lowercase(w@), start_of(start_num)))
        },
        if start_too_small(start_num) || start_past_end(lw, start_of(start_num)) {
            q == CalcResult::Error(ErrorKind::Value)
        } else {
            position_result(q, find_position(lw@, lf@, start_of(start_num)))
        },
    ensures
        r == q,
{
    lemma_search_is_find_ignoring_case(lf@, lw@, start_of(start_num));
}

proof fn lemma_nth_next(s: Seq<char>, d: Seq<char>, k: int, n: int)
    requires
        n >= 1,
    ensures
        nth_from(s, d, k, n) matches Some(p) ==> nth_from(s, d, k, n + 1) == find_from(s, d, p + d.len()),
        nth_from(s, d, k, n) is None ==> nth_from(s, d, k, n + 1) is None,
    decreases n,
{
    match find_from(s, d, k) {
        None => {},
        Some(q) => {
            if n > 1 {
                lemma_nth_next(s, d, q + d.len(), n - 1);
                assert(nth_from(s, d, k, n) == nth_from(s, d, q + d.len(), n - 1));
                assert(nth_from(s, d, k, n + 1) == nth_from(s, d, q + d.len(), n));
            } else {
                assert(nth_from(s, d, k, 1) == Some(q));
                assert(nth_from(s, d, k, 2) == nth_from(s, d, q + d.len(), 1));
                assert(nth_from(s, d, q + d.len(), 1) == find_from(s, d, q + d.len()));
            }
        },
    }
}

/// The instances of a delimiter that TEXTBEFORE and TEXTAFTER count from the
/// start are its occurrences one after another: the first instance is the
/// first occurrence in the text, and each next instance is the first
/// occurrence that starts where the one before it ends; past the last
/// occurrence there is none.
pub proof fn lemma_delimiter_instances(s: Seq<char>, d: Seq<char>, n: int)
    requires
        n >= 1,
    ensures
        delimiter_at(s, d, 1) == find_from(s, d, 0),
        delimiter_at(s, d, n) matches Some(p) ==> delimiter_at(s, d, n + 1) == find_from(s, d, p + d.len()),
        delimiter_at(s, d, n) is None ==> delimiter_at(s, d, n + 1) is None,
{
    lemma_nth_next(s, d, 0, n);
}

/// The columns of the arrays before the `k`-th, added up.
pub open spec fn widths_before(gs: Seq<Seq<Seq<NodeV>>>, k: int) -> int
    decreases k,
{
    if k <= 0 {
        0
    } else {
        widths_before(gs, k - 1) + width(gs[k - 1])
    }
}

/// Every row of every array is as long as the array's first row.
pub open spec fn all_rectangular(gs: Seq<Seq<Seq<NodeV>>>) -> bool {
    forall|k: int, i: int| 0 <= k < gs.len() && 0 <= i < gs[k].len() ==> #[trigger] gs[k][i].len() == width(gs[k])
}

proof fn lemma_widths_prefix(gs: Seq<Seq<Seq<NodeV>>>, m: int, k: int)
    requires
        0 <= k <= m <= gs.len(),
    ensures
        widths_before(gs.take(m), k) == widths_before(gs, k),
    decreases k,
{
    if k > 0 {
        lemma_widths_prefix(gs, m, k - 1);
    }
}

/// HSTACK of arrays whose rows are as long as their first: row `r` of the
/// result is as wide as all the arrays together.
pub proof fn lemma_hstack_width(gs: Seq<Seq<Seq<NodeV>>>, r: int)
    requires
        all_rectangular(gs),
        r >= 0,
    ensures
        hstack_row(gs, r).len() == widths_before(gs, gs.len() as int),
    decreases gs.len(),
{
    if gs.len() > 0 {
        let front = gs.drop_last();
        assert(all_rectangular(front)) by {
            assert forall|k: int, i: int| 0 <= k < front.len() && 0 <= i < front[k].len() implies #[trigger] front[k][i].len()
                == width(front[k]) by {
                assert(front[k] == gs[k]);
            }
        }
        lemma_hstack_width(front, r);
        assert(front =~= gs.take(gs.len() - 1));
        lemma_widths_prefix(gs, gs.len() - 1, gs.len() - 1);
        if r < gs.last().len() {
            assert(gs[gs.len() - 1][r].len() == width(gs[gs.len() - 1]));
        }
    }
}

/// HSTACK places the arrays side by side: in row `r` of the result, column
/// `j` of the `k`-th array sits at the columns of the arrays before it plus
/// `j`, holding that array's element in row `r`, or the empty text where
/// the array has fewer rows (so the arrays after a short one keep their
/// columns).
pub proof fn lemma_hstack_places(gs: Seq<Seq<Seq<NodeV>>>, r: int, k: int, j: int)
    requires
        all_rectangular(gs),
        r >= 0,
        0 <= k < gs.len(),
        0 <= j < width(gs[k]),
    ensures
        hstack_row(gs, r)[widths_before(gs, k) + j] == if r < gs[k].len() {
            gs[k][r][j]
        } else {
            empty_text()
        },
    decreases gs.len(),
{
    let front = gs.drop_last();
    assert(all_rectangular(front)) by {
        assert forall|a: int, i: int| 0 <= a < front.len() && 0 <= i < front[a].len() implies #[trigger] front[a][i].len()
            == width(front[a]) by {
            assert(front[a] == gs[a]);
        }
    }
    lemma_hstack_width(front, r);
    assert(front =~= gs.take(gs.len() - 1));
    lemma_widths_prefix(gs, gs.len() - 1, gs.len() - 1);
    let g = gs.last();
    let part = if r < g.len() {
        g[r]
    } else {
        Seq::new(width(g) as nat, |i: int| empty_text())
    };
    if r < g.len() {
        assert(g[r].len() == width(g));
    }
    let head = hstack_row(front, r);
    assert(hstack_row(gs, r) == head + part);
    assert(head.len() == widths_before(gs, gs.len() - 1));
    if k < gs.len() - 1 {
        lemma_hstack_places(front, r, k, j);
        lemma_widths_prefix(gs, gs.len() - 1, k);
        lemma_widths_nonneg_mono(gs, k + 1, gs.len() - 1);
        assert(front[k] == gs[k]);
        assert(widths_before(front, k) == widths_before(gs, k));
        assert(widths_before(gs, k + 1) == widths_before(gs, k) + width(gs[k]));
        lemma_widths_nonneg_mono(gs, 0, k);
        assert((head + part)[widths_before(gs, k) + j] == head[widths_before(gs, k) + j]);
    } else {
        lemma_widths_nonneg_mono(gs, 0, k);
        assert((head + part)[widths_before(gs, k) + j] == part[j]);
    }
}

proof fn lemma_widths_nonneg_mono(gs: Seq<Seq<Seq<NodeV>>>, a: int, b: int)
    requires
        0 <= a <= b <= gs.len(),
    ensures
        widths_before(gs, a) <= widths_before(gs, b),
    decreases b - a,
{
    if a < b {
        lemma_widths_nonneg_mono(gs, a, b - 1);
    }
}

proof fn lemma_drop_empty_nonempty(p: Seq<Seq<char>>, n: int)
    requires
        0 <= n <= p.len(),
    ensures
        forall|i: int| 0 <= i < drop_empty(p, n).len() ==> #[trigger] drop_empty(p, n)[i].len() > 0,
    decreases n,
{
    if n > 0 {
        lemma_drop_empty_nonempty(p, n - 1);
        let prev = drop_empty(p, n - 1);
        if p[n - 1].len() > 0 {
            assert forall|i: int| 0 <= i < prev.push(p[n - 1]).len() implies #[trigger] prev.push(p[n - 1])[i].len()
                > 0 by {
                if i < prev.len() {
                    assert(prev.push(p[n - 1])[i] == prev[i]);
                }
            }
        }
    }
}

/// TEXTSPLIT with `ignore_empty` leaves out every empty piece and every line
/// left with none, so every row holds pieces and every piece has text.
/// Without it there is one row per line, holding the line's pieces.
pub proof fn lemma_textsplit_rows(lines: Seq<Seq<char>>, cd: Seq<char>, n: int)
    requires
        0 <= n <= lines.len(),
    ensures
        forall|i: int|
            0 <= i < split_lines(lines, cd, true, n).len() ==> #[trigger] split_lines(lines, cd, true, n)[i].len() > 0,
        forall|i: int, j: int|
            0 <= i < split_lines(lines, cd, true, n).len() && 0 <= j < split_lines(lines, cd, true, n)[i].len()
                ==> #[trigger] split_lines(lines, cd, true, n)[i][j].len() > 0,
        split_lines(lines, cd, false, n).len() == n,
        forall|i: int| 0 <= i < n ==> #[trigger] split_lines(lines, cd, false, n)[i] == pieces(lines[i], cd),
    decreases n,
{
    if n > 0 {
        lemma_textsplit_rows(lines, cd, n - 1);
        let p = pieces(lines[n - 1], cd);
        lemma_drop_empty_nonempty(p, p.len() as int);
        let prev = split_lines(lines, cd, true, n - 1);
        let row = drop_empty(p, p.len() as int);
        if row.len() > 0 {
            let all = prev.push(row);
            assert(split_lines(lines, cd, true, n) == all);
            assert forall|i: int| 0 <= i < all.len() implies #[trigger] all[i].len() > 0 by {
                if i < prev.len() {
                    assert(all[i] == prev[i]);
                }
            }
            assert forall|i: int, j: int| 0 <= i < all.len() && 0 <= j < all[i].len() implies #[trigger] all[i][j].len()
                > 0 by {
                if i < prev.len() {
                    assert(all[i] == prev[i]);
                }
            }
        }
        let fprev = split_lines(lines, cd, false, n - 1);
        assert forall|i: int| 0 <= i < n implies #[trigger] split_lines(lines, cd, false, n)[i] == pieces(lines[i], cd) by {
            if i < n - 1 {
                assert(split_lines(lines, cd, false, n)[i] == fprev[i]);
            }
        }
    }
}

/// Between missing elements, numbers and texts, the order of SORT and
/// XMATCH is by value for numbers, puts a missing element before anything
/// else and every number before every text.
pub proof fn lemma_order_of_kinds(x: Number, y: Number, t: Seq<char>, a: Option<NodeV>)
    ensures
        compare_nodes(Some(NodeV::Number(x)), Some(NodeV::Number(y))) == Order::Less <==> x.scaled < y.scaled,
        compare_nodes(Some(NodeV::Number(x)), Some(NodeV::Number(y))) == Order::Equal <==> x.scaled == y.scaled,
        compare_nodes(Some(NodeV::Number(x)), Some(NodeV::Text(t))) == Order::Less,
        a is Some ==> compare_nodes(None, a) == Order::Less,
{
}

/// The nearest candidate in the first `k` items (see `nearest`), for items
/// that are numbers or texts: it is a candidate, no candidate is nearer to
/// the lookup value, and every candidate before it is farther; when there
/// is none, no item is a candidate.
pub proof fn lemma_nearest_is_nearest(items: Seq<NodeV>, lookup: NodeV, mode: int, k: int)
    requires
        mode == -1 || mode == 1,
        0 <= k <= items.len(),
        forall|i: int| 0 <= i < items.len() ==> orderable(Some(#[trigger] items[i])),
    ensures
        nearest(items, lookup, mode, k) is None ==> forall|i: int|
            0 <= i < k ==> !near_candidate(lookup, #[trigger] items[i], mode),
        nearest(items, lookup, mode, k) matches Some(b) ==> {
            &&& 0 <= b < k
            &&& near_candidate(lookup, items[b], mode)
            &&& forall|i: int|
                0 <= i < k && near_candidate(lookup, #[trigger] items[i], mode) ==> !nearer(items[i], items[b], mode) && (i
                    < b ==> nearer(items[b], items[i], mode))
        },
    decreases k,
{
    if k > 0 {
        lemma_nearest_is_nearest(items, lookup, mode, k - 1);
        let c = items[k - 1];
        assert(orderable(Some(c)));
        lemma_compare_reverse(Some(c), Some(c));
        match nearest(items, lookup, mode, k - 1) {
            None => {},
            Some(b0) => {
                let y = items[b0];
                assert(orderable(Some(y)));
                if near_candidate(lookup, c, mode) && nearer(c, y, mode) {
                    assert forall|i: int|
                        0 <= i < k && near_candidate(lookup, #[trigger] items[i], mode) implies !nearer(items[i], c, mode)
                        && (i < k - 1 ==> nearer(c, items[i], mode)) by {
                        let x = items[i];
                        assert(orderable(Some(x)));
                        lemma_compare_reverse(Some(x), Some(y));
                        lemma_compare_reverse(Some(x), Some(c));
                        lemma_compare_reverse(Some(y), Some(c));
                        if i < k - 1 {
                            if mode == -1 {
                                lemma_compare_trans(Some(x), Some(y), Some(c));
                            } else {
                                lemma_compare_reverse(Some(y), Some(x));
                                lemma_compare_trans(Some(c), Some(y), Some(x));
                            }
                        }
                    }
                }
            },
        }
    }
}

/// The last occurrence of `d` that ends by `e`: it is an occurrence, and
/// no occurrence after it ends by `e`; when there is none, no occurrence
/// ends by `e`.
pub proof fn lemma_last_occurrence(s: Seq<char>, d: Seq<char>, e: int)
    ensures
        rfind_upto(s, d, e) matches Some(p) ==> occurs_at(s, d, p) && p + d.len() <= e && forall|q: int|
            p < q && q + d.len() <= e ==> !occurs_at(s, d, q),
        rfind_upto(s, d, e) is None ==> forall|q: int| 0 <= q && q + d.len() <= e ==> !occurs_at(s, d, q),
    decreases e,
{
    if e >= d.len() && e >= 0 && !occurs_at(s, d, e - d.len()) && e > 0 {
        lemma_last_occurrence(s, d, e - 1);
    }
}

proof fn lemma_nth_back_next(s: Seq<char>, d: Seq<char>, e: int, n: int)
    requires
        n >= 1,
    ensures
        nth_back(s, d, e, n) matches Some(p) ==> nth_back(s, d, e, n + 1) == rfind_upto(s, d, p),
        nth_back(s, d, e, n) is None ==> nth_back(s, d, e, n + 1) is None,
    decreases n,
{
    match rfind_upto(s, d, e) {
        None => {},
        Some(q) => {
            if n > 1 {
                lemma_nth_back_next(s, d, q, n - 1);
                assert(nth_back(s, d, e, n) == nth_back(s, d, q, n - 1));
                assert(nth_back(s, d, e, n + 1) == nth_back(s, d, q, n));
            } else {
                assert(nth_back(s, d, e, 1) == Some(q));
                assert(nth_back(s, d, e, 2) == nth_back(s, d, q, 1));
                assert(nth_back(s, d, q, 1) == rfind_upto(s, d, q));
            }
        },
    }
}

/// The instances of a delimiter counted from the end (a negative instance)
/// are its occurrences from the last one back: instance -1 is the last
/// occurrence, and each further one is the last occurrence that ends where
/// the one after it starts; before the first there is none.
pub proof fn lemma_delimiter_instances_from_end(s: Seq<char>, d: Seq<char>, n: int)
    requires
        n >= 1,
    ensures
        delimiter_at(s, d, -1) == rfind_upto(s, d, s.len() as int),
        delimiter_at(s, d, -n) matches Some(p) ==> delimiter_at(s, d, -(n + 1)) == rfind_upto(s, d, p),
        delimiter_at(s, d, -n) is None ==> delimiter_at(s, d, -(n + 1)) is None,
{
    lemma_nth_back_next(s, d, s.len() as int, n);
}

} // verus!
