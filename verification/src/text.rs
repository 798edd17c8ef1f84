use vstd::prelude::*;

verus! {

/// The whitespace that separates tokens within a line.
pub open spec fn is_ws(c: char) -> bool {
    c == ' ' || c == '\t'
}

/// The number of characters before the first line break, or the whole length
/// when there is none.
pub open spec fn line_len(s: Seq<char>) -> int
    decreases s.len(),
{
    if s.len() == 0 {
        0
    } else if s[0] == '\n' {
        0
    } else {
        1 + line_len(s.drop_first())
    }
}

pub proof fn lemma_line_len_bounds(s: Seq<char>)
    ensures
        0 <= line_len(s) <= s.len(),
        forall|k: int| 0 <= k < line_len(s) ==> s[k] != '\n',
        line_len(s) < s.len() ==> s[line_len(s)] == '\n',
    decreases s.len(),
{
    if s.len() == 0 {
    } else if s[0] == '\n' {
    } else {
        lemma_line_len_bounds(s.drop_first());
        let t = s.drop_first();
        assert forall|k: int| 0 <= k < line_len(s) implies s[k] != '\n' by {
            if k > 0 {
                assert(t[k - 1] == s[k]);
            }
        }
        if line_len(s) < s.len() {
            assert(t[line_len(t)] == s[line_len(s)]);
        }
    }
}

/// Where the first line break sits, given where the breaks are.
pub proof fn lemma_line_len_at(s: Seq<char>, m: int)
    requires
        0 <= m <= s.len(),
        forall|k: int| 0 <= k < m ==> s[k] != '\n',
        m < s.len() ==> s[m] == '\n',
    ensures
        line_len(s) == m,
    decreases s.len(),
{
    if s.len() == 0 {
    } else if s[0] == '\n' {
        assert(m == 0);
    } else {
        let t = s.drop_first();
        assert forall|k: int| 0 <= k < m - 1 implies t[k] != '\n' by {
            assert(t[k] == s[k + 1]);
        }
        if m - 1 < t.len() {
            assert(t[m - 1] == s[m]);
        }
        lemma_line_len_at(t, m - 1);
    }
}

/// A line with a trailing carriage return has it stripped.
pub open spec fn strip_cr(l: Seq<char>) -> Seq<char> {
    if l.len() > 0 && l.last() == '\r' {
        l.drop_last()
    } else {
        l
    }
}

/// The number of leading non-whitespace characters: the length of the first
/// token when the text starts with one.
pub open spec fn tok_len(s: Seq<char>) -> int
    decreases s.len(),
{
    if s.len() == 0 {
        0
    } else if !is_ws(s[0]) {
        1 + tok_len(s.drop_first())
    } else {
        0
    }
}

pub proof fn lemma_tok_len_bounds(s: Seq<char>)
    ensures
        0 <= tok_len(s) <= s.len(),
        forall|k: int| 0 <= k < tok_len(s) ==> !is_ws(s[k]),
        tok_len(s) < s.len() ==> is_ws(s[tok_len(s)]),
    decreases s.len(),
{
    if s.len() == 0 {
    } else if !is_ws(s[0]) {
        lemma_tok_len_bounds(s.drop_first());
        let t = s.drop_first();
        assert forall|k: int| 0 <= k < tok_len(s) implies !is_ws(s[k]) by {
            if k > 0 {
                assert(t[k - 1] == s[k]);
            }
        }
        if tok_len(s) < s.len() {
            assert(t[tok_len(t)] == s[tok_len(s)]);
        }
    } else {
    }
}

pub proof fn lemma_tok_len_at(s: Seq<char>, m: int)
    requires
        0 <= m <= s.len(),
        forall|k: int| 0 <= k < m ==> !is_ws(s[k]),
        m < s.len() ==> is_ws(s[m]),
    ensures
        tok_len(s) == m,
    decreases s.len(),
{
    if s.len() == 0 {
    } else if !is_ws(s[0]) {
        let t = s.drop_first();
        assert forall|k: int| 0 <= k < m - 1 implies !is_ws(t[k]) by {
            assert(t[k] == s[k + 1]);
        }
        if m - 1 < t.len() {
            assert(t[m - 1] == s[m]);
        }
        lemma_tok_len_at(t, m - 1);
    } else {
        assert(m == 0);
    }
}

/// The whitespace-separated tokens of a line: the maximal runs of
/// non-whitespace characters, in order.
pub open spec fn spec_tokens(s: Seq<char>) -> Seq<Seq<char>>
    decreases s.len(),
    via spec_tokens_decreases
{
    if s.len() == 0 {
        Seq::empty()
    } else if is_ws(s[0]) {
        spec_tokens(s.drop_first())
    } else {
        let n = tok_len(s);
        seq![s.take(n)] + spec_tokens(s.skip(n))
    }
}

#[via_fn]
proof fn spec_tokens_decreases(s: Seq<char>) {
    lemma_tok_len_bounds(s);
    if s.len() > 0 && !is_ws(s[0]) {
        assert(tok_len(s) >= 1);
    }
}

/// The tokens joined back together with single spaces.
pub open spec fn join_sp(toks: Seq<Seq<char>>) -> Seq<char>
    decreases toks.len(),
{
    if toks.len() == 0 {
        Seq::empty()
    } else if toks.len() == 1 {
        toks[0]
    } else {
        toks[0] + seq![' '] + join_sp(toks.drop_first())
    }
}

/// Joining one more token appends a separating space and the token.
pub proof fn lemma_join_push(ts: Seq<Seq<char>>, t: Seq<char>)
    ensures
        join_sp(ts.push(t)) == if ts.len() == 0 {
            t
        } else {
            join_sp(ts) + seq![' '] + t
        },
    decreases ts.len(),
{
    let w = ts.push(t);
    if ts.len() == 0 {
        assert(w.len() == 1);
        assert(w[0] == t);
    } else if ts.len() == 1 {
        assert(w.len() == 2);
        assert(w[0] == ts[0]);
        assert(w.drop_first() =~~= seq![t]);
        assert(seq![t].len() == 1 && seq![t][0] == t);
        assert(join_sp(seq![t]) == t);
        assert(join_sp(w) == w[0] + seq![' '] + join_sp(w.drop_first()));
        assert(join_sp(w) == ts[0] + seq![' '] + t);
        assert(join_sp(ts) == ts[0]);
    } else {
        assert(w.drop_first() =~~= ts.drop_first().push(t));
        lemma_join_push(ts.drop_first(), t);
        assert(w[0] == ts[0]);
        assert(join_sp(w) == ts[0] + seq![' '] + (join_sp(ts.drop_first()) + seq![' '] + t));
        assert(join_sp(ts) == ts[0] + seq![' '] + join_sp(ts.drop_first()));
        assert(ts[0] + seq![' '] + (join_sp(ts.drop_first()) + seq![' '] + t) =~= (ts[0]
            + seq![' '] + join_sp(ts.drop_first())) + seq![' '] + t);
    }
}

/// The position of the first line break at or after `start`, or `n` when
/// there is none.
pub(crate) fn find_line_break(s: &str, start: usize, n: usize) -> (r: usize)
    requires
        start <= n,
        n == s@.len(),
    ensures
        start <= r <= n,
        forall|k: int| start <= k < r ==> s@[k] != '\n',
        r < n ==> s@[r as int] == '\n',
{
    let mut i = start;
    while i < n
        invariant
            start <= i <= n == s@.len(),
            forall|k: int| start <= k < i ==> s@[k] != '\n',
        decreases n - i,
    {
        if s.get_char(i) == '\n' {
            return i;
        }
        i += 1;
    }
    n
}

/// The end of the token starting at `start`: the first whitespace character
/// at or after it, or `le` when there is none before `le`.
fn scan_token_end(s: &str, start: usize, le: usize) -> (r: usize)
    requires
        start < le <= s@.len(),
        !is_ws(s@[start as int]),
    ensures
        start < r <= le,
        forall|k: int| start <= k < r ==> !is_ws(s@[k]),
        r < le ==> is_ws(s@[r as int]),
{
    let mut i = start + 1;
    while i < le
        invariant
            start < i <= le <= s@.len(),
            forall|k: int| start <= k < i ==> !is_ws(s@[k]),
        decreases le - i,
    {
        let c = s.get_char(i);
        if c == ' ' || c == '\t' {
            return i;
        }
        i += 1;
    }
    le
}

/// The token boundaries of the characters of `s` between `ls` and `le`:
/// each pair bounds one maximal run of non-whitespace characters.
pub(crate) fn tokens_of(s: &str, ls: usize, le: usize) -> (r: Vec<(usize, usize)>)
    requires
        ls <= le <= s@.len(),
    ensures
        r@.map_values(|p: (usize, usize)| s@.subrange(p.0 as int, p.1 as int)) == spec_tokens(
            s@.subrange(ls as int, le as int),
        ),
        forall|q: int| 0 <= q < r@.len() ==> ls <= (#[trigger] r@[q]).0 < r@[q].1 <= le,
{
    let mut r: Vec<(usize, usize)> = Vec::new();
    let mut i = ls;
    proof {
        assert(r@.map_values(|p: (usize, usize)| s@.subrange(p.0 as int, p.1 as int))
            =~~= Seq::<Seq<char>>::empty());
    }
    while i < le
        invariant
            ls <= i <= le <= s@.len(),
            spec_tokens(s@.subrange(ls as int, le as int)) == r@.map_values(
                |p: (usize, usize)| s@.subrange(p.0 as int, p.1 as int),
            ) + spec_tokens(s@.subrange(i as int, le as int)),
            forall|q: int| 0 <= q < r@.len() ==> ls <= (#[trigger] r@[q]).0 < r@[q].1 <= le,
        decreases le - i,
    {
        let ghost mapped = r@.map_values(|p: (usize, usize)| s@.subrange(p.0 as int, p.1 as int));
        let c = s.get_char(i);
        if c == ' ' || c == '\t' {
            proof {
                let cur = s@.subrange(i as int, le as int);
                assert(cur[0] == c && is_ws(cur[0]));
                assert(cur.drop_first() =~= s@.subrange(i as int + 1, le as int));
            }
            i += 1;
        } else {
            let j = scan_token_end(s, i, le);
            let ghost prev = r@;
            r.push((i, j));
            proof {
                let cur = s@.subrange(i as int, le as int);
                assert(cur[0] == c && !is_ws(cur[0]));
                assert forall|k: int| 0 <= k < j - i implies !is_ws(cur[k]) by {
                    assert(cur[k] == s@[i + k]);
                }
                if j - i < cur.len() {
                    assert(cur[j - i] == s@[j as int]);
                }
                lemma_tok_len_at(cur, j - i);
                assert(cur.take(j - i) =~= s@.subrange(i as int, j as int));
                assert(cur.skip(j - i) =~= s@.subrange(j as int, le as int));
                assert(spec_tokens(cur) == seq![s@.subrange(i as int, j as int)] + spec_tokens(
                    s@.subrange(j as int, le as int),
                ));
                assert(r@ == prev.push((i, j)));
                assert(r@.map_values(|p: (usize, usize)| s@.subrange(p.0 as int, p.1 as int))
                    =~~= mapped.push(s@.subrange(i as int, j as int)));
                assert(spec_tokens(s@.subrange(ls as int, le as int)) =~~= r@.map_values(
                    |p: (usize, usize)| s@.subrange(p.0 as int, p.1 as int),
                ) + spec_tokens(s@.subrange(j as int, le as int)));
            }
            i = j;
        }
    }
    proof {
        let e = s@.subrange(le as int, le as int);
        assert(e.len() == 0);
        assert(spec_tokens(e) =~~= Seq::<Seq<char>>::empty());
        assert(spec_tokens(s@.subrange(ls as int, le as int)) =~~= r@.map_values(
            |p: (usize, usize)| s@.subrange(p.0 as int, p.1 as int),
        ));
    }
    r
}

/// Joins the tokens of `s` bounded by `toks[start..]` with single spaces.
pub(crate) fn join_tokens(s: &str, toks: &Vec<(usize, usize)>, start: usize) -> (r: String)
    requires
        start <= toks@.len(),
        forall|q: int| 0 <= q < toks@.len() ==> (#[trigger] toks@[q]).0 <= toks@[q].1 <= s@.len(),
    ensures
        r@ == join_sp(
            toks@.map_values(|p: (usize, usize)| s@.subrange(p.0 as int, p.1 as int)).skip(
                start as int,
            ),
        ),
{
    proof {
        reveal_strlit(" ");
    }
    let ghost mapped = toks@.map_values(|p: (usize, usize)| s@.subrange(p.0 as int, p.1 as int));
    let ghost rest = mapped.skip(start as int);
    let mut out = String::new();
    let n = toks.len();
    let mut i = start;
    while i < n
        invariant
            start <= i <= n == toks@.len(),
            forall|q: int|
                0 <= q < toks@.len() ==> (#[trigger] toks@[q]).0 <= toks@[q].1 <= s@.len(),
            mapped == toks@.map_values(
                |p: (usize, usize)| s@.subrange(p.0 as int, p.1 as int),
            ),
            rest == mapped.skip(start as int),
            out@ == join_sp(rest.take(i - start)),
        decreases n - i,
    {
        proof {
            reveal_strlit(" ");
        }
        if i > start {
            out.append(" ");
        }
        let p = toks[i];
        let piece = s.substring_char(p.0, p.1);
        out.append(piece);
        proof {
            let prefix = rest.take(i - start);
            let cur = rest.take(i + 1 - start);
            assert(cur =~~= prefix.push(mapped[i as int]));
            lemma_join_push(prefix, mapped[i as int]);
            assert(mapped[i as int] == s@.subrange(p.0 as int, p.1 as int));
            if i > start {
                assert(out@ =~= join_sp(prefix) + seq![' '] + mapped[i as int]);
            } else {
                assert(prefix.len() == 0);
                assert(out@ =~= mapped[i as int]);
            }
        }
        i += 1;
    }
    proof {
        assert(rest.take(n - start) =~~= rest);
    }
    out
}

/// Tokenizing a text that starts with a token followed by a single space:
/// the token splits off.
pub proof fn lemma_tokens_step(a: Seq<char>, rest: Seq<char>)
    requires
        a.len() > 0,
        forall|k: int| 0 <= k < a.len() ==> !is_ws(#[trigger] a[k]),
    ensures
        spec_tokens(a + seq![' '] + rest) == seq![a] + spec_tokens(rest),
{
    let s = a + seq![' '] + rest;
    assert(!is_ws(s[0]));
    assert forall|k: int| 0 <= k < a.len() implies !is_ws(s[k]) by {
        assert(s[k] == a[k]);
    }
    assert(s[a.len() as int] == ' ' && is_ws(s[a.len() as int]));
    lemma_tok_len_at(s, a.len() as int);
    assert(s.take(a.len() as int) =~= a);
    assert(s.skip(a.len() as int) =~= seq![' '] + rest);
    let w = seq![' '] + rest;
    assert(is_ws(w[0]));
    assert(w.drop_first() =~= rest);
    assert(spec_tokens(w) == spec_tokens(rest));
    assert(spec_tokens(s) =~~= seq![a] + spec_tokens(rest));
}

/// A text that is one single token tokenizes to just that token.
pub proof fn lemma_tokens_single(a: Seq<char>)
    requires
        a.len() > 0,
        forall|k: int| 0 <= k < a.len() ==> !is_ws(#[trigger] a[k]),
    ensures
        spec_tokens(a) == seq![a],
{
    assert(!is_ws(a[0]));
    lemma_tok_len_at(a, a.len() as int);
    assert(a.take(a.len() as int) =~= a);
    let e = a.skip(a.len() as int);
    assert(e.len() == 0);
    assert(spec_tokens(e) =~= Seq::<Seq<char>>::empty());
    assert(spec_tokens(a) =~~= seq![a]);
}

} // verus!
