use vstd::prelude::*;

use crate::digits::{spec_int_digits, spec_parse_i64};
use crate::edge::Edge;
use crate::graph::Graph;
use crate::marker::Directed;
use crate::text::{join_sp, line_len, spec_tokens, strip_cr};

verus! {

/// A graph serialized in Trivial Graph Format: one `<key> <value>` line per
/// vertex, a lone `#` line, then one `<from> <to>` line per directed edge.
pub struct TrivialGraphFormat {
    pub text: String,
}

impl View for TrivialGraphFormat {
    type V = Seq<char>;

    open spec fn view(&self) -> Seq<char> {
        self.text@
    }
}

impl TrivialGraphFormat {
    /// Gives up the wrapper and hands the text out.
    pub fn into_string(self) -> (r: String)
        ensures
            r@ == self@,
    {
        self.text
    }
}

impl From<String> for TrivialGraphFormat {
    fn from(value: String) -> (r: TrivialGraphFormat) {
        TrivialGraphFormat { text: value }
    }
}

impl vstd::std_specs::convert::FromSpecImpl<String> for TrivialGraphFormat {
    open spec fn obeys_from_spec() -> bool {
        true
    }

    open spec fn from_spec(value: String) -> TrivialGraphFormat {
        TrivialGraphFormat { text: value }
    }
}

/// Conversion of a graph to and from its Trivial Graph Format text.
pub trait TgfConvertible: Sized {
    fn to_tgf(&self) -> TrivialGraphFormat;

    fn from_tgf(tgf: TrivialGraphFormat) -> Result<Self, String>;
}

/// The abstract content of a graph as the codec sees it: for each vertex, in
/// store order, its key, the characters of its value, and the keys its edges
/// target, in adjacency order. Edge weights play no part: the format does not
/// carry them.
pub type VertexModel = (i64, Seq<char>, Seq<i64>);

/// The keys an adjacency list targets, in order.
pub open spec fn spec_targets(adj: Seq<Edge>) -> Seq<i64> {
    adj.map_values(|e: Edge| e.to)
}

/// The model of a graph of string-valued vertices.
pub open spec fn model_of(g: Graph<String, Directed>) -> Seq<VertexModel> {
    Seq::new(
        g.spec_vertices().len(),
        |i: int|
            (
                g.spec_vertices()[i].spec_key(),
                g.spec_vertices()[i].spec_value()@,
                spec_targets(g.spec_vertices()[i].spec_adj()),
            ),
    )
}

pub open spec fn model_contains(m: Seq<VertexModel>, k: i64) -> bool {
    exists|i: int| 0 <= i < m.len() && (#[trigger] m[i]).0 == k
}

pub open spec fn model_index_of(m: Seq<VertexModel>, k: i64) -> int {
    choose|i: int| 0 <= i < m.len() && (#[trigger] m[i]).0 == k
}

/// Inserting a vertex into the model: a held key is replaced in its slot —
/// its edges dropped with it — and a fresh key is appended.
pub open spec fn model_insert_vertex(m: Seq<VertexModel>, k: i64, value: Seq<char>) -> Seq<
    VertexModel,
> {
    if model_contains(m, k) {
        m.update(model_index_of(m, k), (k, value, Seq::empty()))
    } else {
        m.push((k, value, Seq::empty()))
    }
}

/// Inserting a target into a target list: a held target is taken out (the
/// last target moving into its slot) and the target is appended.
pub open spec fn targets_insert(ts: Seq<i64>, to: i64) -> Seq<i64> {
    if ts.contains(to) {
        let i = choose|i: int| 0 <= i < ts.len() && ts[i] == to;
        ts.update(i, ts.last()).drop_last().push(to)
    } else {
        ts.push(to)
    }
}

/// Inserting an unweighted edge into the model, on the `from` vertex.
pub open spec fn model_insert_edge(m: Seq<VertexModel>, from: i64, to: i64) -> Seq<VertexModel> {
    let i = model_index_of(m, from);
    m.update(i, (m[i].0, m[i].1, targets_insert(m[i].2, to)))
}

/// One rendered vertex line: the key, one space, the value, a line break.
pub open spec fn render_vertex_line(key: i64, value: Seq<char>) -> Seq<char> {
    spec_int_digits(key as int) + seq![' '] + value + seq!['\n']
}

/// One rendered edge line: the two endpoint keys separated by one space.
pub open spec fn render_edge_line(e: Edge) -> Seq<char> {
    spec_int_digits(e.from as int) + seq![' '] + spec_int_digits(e.to as int) + seq!['\n']
}

/// The vertex lines of the graph from store position `i` on.
pub open spec fn spec_vertex_lines(g: Graph<String, Directed>, i: int) -> Seq<char>
    decreases g.spec_vertices().len() - i,
{
    if i >= g.spec_vertices().len() {
        Seq::empty()
    } else {
        render_vertex_line(g.spec_vertices()[i].spec_key(), g.spec_vertices()[i].spec_value()@)
            + spec_vertex_lines(g, i + 1)
    }
}

/// The edge lines of one adjacency list from position `j` on.
pub open spec fn spec_edge_lines_of(adj: Seq<Edge>, j: int) -> Seq<char>
    decreases adj.len() - j,
{
    if j >= adj.len() {
        Seq::empty()
    } else {
        render_edge_line(adj[j]) + spec_edge_lines_of(adj, j + 1)
    }
}

/// The edge lines of the graph from store position `i` on, each vertex's
/// edges in adjacency order.
pub open spec fn spec_edges_lines(g: Graph<String, Directed>, i: int) -> Seq<char>
    decreases g.spec_vertices().len() - i,
{
    if i >= g.spec_vertices().len() {
        Seq::empty()
    } else {
        spec_edge_lines_of(g.spec_vertices()[i].spec_adj(), 0) + spec_edges_lines(g, i + 1)
    }
}

/// The full rendering of a graph: vertex lines, the `#` separator line, edge
/// lines.
pub open spec fn spec_to_tgf(g: Graph<String, Directed>) -> Seq<char> {
    spec_vertex_lines(g, 0) + seq!['#', '\n'] + spec_edges_lines(g, 0)
}

/// The vertex phase of the parse: one line per vertex until the `#` line.
/// Lines without a token are skipped; a key that is no integer fails the
/// whole parse.
pub open spec fn spec_parse_vertices(s: Seq<char>, acc: Seq<VertexModel>) -> Result<
    Seq<VertexModel>,
    Seq<char>,
>
    decreases s.len(), 1int,
    via spec_parse_vertices_decreases
{
    if s.len() == 0 {
        Ok(acc)
    } else {
        let n = line_len(s);
        let line = strip_cr(s.take(n));
        let rest = if n == s.len() {
            Seq::<char>::empty()
        } else {
            s.skip(n + 1)
        };
        if line == seq!['#'] {
            spec_parse_edges(rest, acc)
        } else {
            let toks = spec_tokens(line);
            if toks.len() == 0 {
                spec_parse_vertices(rest, acc)
            } else {
                match spec_parse_i64(toks[0]) {
                    None => Err("couldn't parse vertex"@),
                    Some(k) => spec_parse_vertices(
                        rest,
                        model_insert_vertex(acc, k, join_sp(toks.drop_first())),
                    ),
                }
            }
        }
    }
}

/// The edge phase of the parse: one `<from> <to>` line per edge. An empty
/// line stops the parse early; a line without exactly two tokens, a key that
/// is no integer, or an endpoint not inserted before all fail the whole
/// parse.
pub open spec fn spec_parse_edges(s: Seq<char>, acc: Seq<VertexModel>) -> Result<
    Seq<VertexModel>,
    Seq<char>,
>
    decreases s.len(), 0int,
    via spec_parse_edges_decreases
{
    if s.len() == 0 {
        Ok(acc)
    } else {
        let n = line_len(s);
        let line = strip_cr(s.take(n));
        let rest = if n == s.len() {
            Seq::<char>::empty()
        } else {
            s.skip(n + 1)
        };
        if line.len() == 0 {
            Ok(acc)
        } else {
            let toks = spec_tokens(line);
            if toks.len() != 2 {
                Err("couldn't parse edge"@)
            } else {
                match (spec_parse_i64(toks[0]), spec_parse_i64(toks[1])) {
                    (Some(from), Some(to)) => if model_contains(acc, from) && model_contains(
                        acc,
                        to,
                    ) {
                        spec_parse_edges(rest, model_insert_edge(acc, from, to))
                    } else {
                        Err("graph must contain src and dst vertecies"@)
                    },
                    _ => Err("couldn't parse vertex"@),
                }
            }
        }
    }
}

#[via_fn]
proof fn spec_parse_vertices_decreases(s: Seq<char>, acc: Seq<VertexModel>) {
    crate::text::lemma_line_len_bounds(s);
}

#[via_fn]
proof fn spec_parse_edges_decreases(s: Seq<char>, acc: Seq<VertexModel>) {
    crate::text::lemma_line_len_bounds(s);
}

/// The full parse of a text into a graph model: the vertex phase, then the
/// edge phase.
pub open spec fn spec_from_tgf(s: Seq<char>) -> Result<Seq<VertexModel>, Seq<char>> {
    spec_parse_vertices(s, Seq::empty())
}

/// The model of a well-formed graph holds the same keys at the same slots.
proof fn lemma_model_contains(g: Graph<String, Directed>)
    requires
        g.wf(),
    ensures
        forall|t: i64| #[trigger] model_contains(model_of(g), t) == g.spec_contains(t),
        forall|t: i64|
            g.spec_contains(t) ==> #[trigger] model_index_of(model_of(g), t) == g.spec_index_of(t),
{
    let m = model_of(g);
    assert forall|t: i64| #[trigger] model_contains(m, t) == g.spec_contains(t) by {
        if model_contains(m, t) {
            let i = model_index_of(m, t);
            assert(0 <= i < m.len() && m[i].0 == t);
            assert(g.spec_vertices()[i].spec_key() == t);
            assert(g.spec_contains(t));
        }
        if g.spec_contains(t) {
            let i = g.spec_index_of(t);
            assert(0 <= i < g.spec_vertices().len() && g.spec_vertices()[i].spec_key() == t);
            assert(m[i].0 == t);
            assert(model_contains(m, t));
        }
    }
    assert forall|t: i64| g.spec_contains(t) implies #[trigger] model_index_of(m, t)
        == g.spec_index_of(t) by {
        let i = g.spec_index_of(t);
        assert(0 <= i < g.spec_vertices().len() && g.spec_vertices()[i].spec_key() == t);
        assert(m[i].0 == t);
        assert(model_contains(m, t));
        let j = model_index_of(m, t);
        assert(0 <= j < m.len() && m[j].0 == t);
        assert(g.spec_vertices()[j].spec_key() == t);
        assert(j == i);
    }
}

/// Inserting a fresh vertex into a graph moves its model by `model_insert_vertex`.
proof fn lemma_model_insert_vertex(
    pre: Graph<String, Directed>,
    post: Graph<String, Directed>,
    k: i64,
    val: Seq<char>,
)
    requires
        pre.wf(),
        post.wf(),
        forall|t: i64| #[trigger] post.spec_contains(t) <==> (pre.spec_contains(t) || t == k),
        post.spec_vertex(k).spec_key() == k,
        post.spec_vertex(k).spec_value()@ == val,
        post.spec_vertex(k).spec_adj() == Seq::<Edge>::empty(),
        post.spec_vertices().len() == pre.spec_vertices().len() + (if pre.spec_contains(k) {
            0int
        } else {
            1int
        }),
        post.spec_index_of(k) == (if pre.spec_contains(k) {
            pre.spec_index_of(k)
        } else {
            pre.spec_vertices().len() as int
        }),
        forall|i: int|
            0 <= i < post.spec_vertices().len() && i != post.spec_index_of(k)
                ==> #[trigger] post.spec_vertices()[i] == pre.spec_vertices()[i],
    ensures
        model_of(post) == model_insert_vertex(model_of(pre), k, val),
{
    lemma_model_contains(pre);
    let mpre = model_of(pre);
    let mpost = model_of(post);
    let expected = model_insert_vertex(mpre, k, val);
    let idx = post.spec_index_of(k);
    assert(post.spec_contains(k));
    assert(0 <= idx < post.spec_vertices().len() && post.spec_vertices()[idx].spec_key() == k);
    assert(mpost[idx] == (k, val, spec_targets(Seq::<Edge>::empty())));
    assert(spec_targets(Seq::<Edge>::empty()) =~= Seq::<i64>::empty());
    assert(expected.len() == mpost.len());
    assert forall|i: int| 0 <= i < mpost.len() implies mpost[i] == expected[i] by {
        if i == idx {
            assert(expected[i] == (k, val, Seq::<i64>::empty()));
        } else {
            assert(post.spec_vertices()[i] == pre.spec_vertices()[i]);
            assert(mpost[i] == mpre[i]);
            if pre.spec_contains(k) {
                assert(expected[i] == mpre[i]);
            } else {
                assert(i < mpre.len());
                assert(expected[i] == mpre[i]);
            }
        }
    }
    assert(mpost =~= expected);
}

/// Inserting a target into a well-formed vertex moves its target list by
/// `targets_insert`.
proof fn lemma_targets_insert(v: crate::vertex::Vertex<String>, to: i64)
    requires
        v.wf(),
    ensures
        spec_targets(v.spec_insert_adj(to, 0)) == targets_insert(spec_targets(v.spec_adj()), to),
{
    let adj = v.spec_adj();
    let ts = spec_targets(adj);
    assert(ts.len() == adj.len());
    assert(forall|i: int| 0 <= i < adj.len() ==> #[trigger] ts[i] == adj[i].to);
    let e = Edge { from: v.spec_key(), to, weight: 0 };
    if v.spec_has_edge(to) {
        let ei = v.spec_edge_index(to);
        assert(0 <= ei < adj.len() && adj[ei].to == to);
        assert(ts[ei] == to);
        assert(ts.contains(to));
        let mi = choose|i: int| 0 <= i < ts.len() && ts[i] == to;
        assert(adj[mi].to == to);
        assert(mi == ei);
        let lhs = spec_targets(crate::vertex::swap_removed(adj, ei).push(e));
        let rhs = ts.update(ei, ts.last()).drop_last().push(to);
        crate::vertex::lemma_swap_removed(adj, ei);
        assert(lhs.len() == adj.len());
        assert(rhs.len() == adj.len());
        assert forall|j: int| 0 <= j < lhs.len() implies lhs[j] == rhs[j] by {
            let sr = crate::vertex::swap_removed(adj, ei);
            if j < adj.len() - 1 {
                assert(lhs[j] == sr.push(e)[j].to);
                assert(sr.push(e)[j] == sr[j]);
                if j == ei {
                    assert(sr[j] == adj[adj.len() - 1]);
                    assert(rhs[j] == ts[ts.len() - 1]);
                } else {
                    assert(sr[j] == adj[j]);
                    assert(rhs[j] == ts[j]);
                }
            } else {
                assert(lhs[j] == e.to);
                assert(rhs[j] == to);
            }
        }
        assert(lhs =~= rhs);
    } else {
        assert(!ts.contains(to)) by {
            if ts.contains(to) {
                let i = choose|i: int| 0 <= i < ts.len() && ts[i] == to;
                assert(adj[i].to == to);
                assert(v.spec_has_edge(to));
            }
        }
        let lhs = spec_targets(adj.push(e));
        assert(lhs.len() == adj.len() + 1);
        assert forall|j: int| 0 <= j < lhs.len() implies lhs[j] == ts.push(to)[j] by {
            if j < adj.len() {
                assert(adj.push(e)[j] == adj[j]);
            } else {
                assert(adj.push(e)[j] == e);
            }
        }
        assert(lhs =~= ts.push(to));
    }
}

/// Inserting an unweighted edge into a graph moves its model by
/// `model_insert_edge`.
proof fn lemma_model_insert_edge(
    pre: Graph<String, Directed>,
    post: Graph<String, Directed>,
    from: i64,
    to: i64,
)
    requires
        pre.wf(),
        post.wf(),
        pre.spec_contains(from),
        forall|t: i64| #[trigger] post.spec_contains(t) == pre.spec_contains(t),
        post.spec_vertices().len() == pre.spec_vertices().len(),
        post.spec_vertex(from).spec_key() == from,
        post.spec_vertex(from).spec_value() == pre.spec_vertex(from).spec_value(),
        post.spec_vertex(from).spec_adj() == pre.spec_vertex(from).spec_insert_adj(to, 0),
        post.spec_index_of(from) == pre.spec_index_of(from),
        forall|i: int|
            0 <= i < post.spec_vertices().len() && i != pre.spec_index_of(from)
                ==> #[trigger] post.spec_vertices()[i] == pre.spec_vertices()[i],
    ensures
        model_of(post) == model_insert_edge(model_of(pre), from, to),
{
    lemma_model_contains(pre);
    let mpre = model_of(pre);
    let mpost = model_of(post);
    let idx = pre.spec_index_of(from);
    assert(0 <= idx < pre.spec_vertices().len() && pre.spec_vertices()[idx].spec_key() == from);
    assert(model_index_of(mpre, from) == idx);
    let expected = model_insert_edge(mpre, from, to);
    lemma_targets_insert(pre.spec_vertex(from), to);
    assert(mpost[idx] == (from, post.spec_vertex(from).spec_value()@, spec_targets(
        post.spec_vertex(from).spec_adj(),
    )));
    assert(expected[idx] == (mpre[idx].0, mpre[idx].1, targets_insert(mpre[idx].2, to)));
    assert(mpre[idx].1 == pre.spec_vertex(from).spec_value()@);
    assert(mpre[idx].2 == spec_targets(pre.spec_vertex(from).spec_adj()));
    assert forall|i: int| 0 <= i < mpost.len() implies mpost[i] == expected[i] by {
        if i != idx {
            assert(post.spec_vertices()[i] == pre.spec_vertices()[i]);
            assert(mpost[i] == mpre[i]);
        }
    }
    assert(mpost =~= expected);
}

impl Graph<String, Directed> {
    /// Serializes the graph: one `<key> <value>` line per vertex in store
    /// order, the `#` separator line, then one `<from> <to>` line per edge,
    /// grouped by vertex in adjacency order. Weights are not written.
    pub fn to_tgf(&self) -> (t: TrivialGraphFormat)
        ensures
            t@ == spec_to_tgf(*self),
    {
        proof {
            reveal_strlit(" ");
            reveal_strlit("\n");
            reveal_strlit("#\n");
        }
        let mut out = String::new();
        let vs = self.vertecies();
        let n = vs.len();
        let mut i: usize = 0;
        proof {
            assert(out@ + spec_vertex_lines(*self, 0) =~= spec_vertex_lines(*self, 0));
        }
        while i < n
            invariant
                vs@ == self.spec_vertices(),
                n == self.spec_vertices().len(),
                0 <= i <= n,
                spec_vertex_lines(*self, 0) == out@ + spec_vertex_lines(*self, i as int),
            decreases n - i,
        {
            let v = &vs[i];
            let ghost before = out@;
            crate::digits::append_int_digits(&mut out, v.key());
            out.append(" ");
            out.append(v.value().as_str());
            out.append("\n");
            proof {
                reveal_strlit(" ");
                reveal_strlit("\n");
                let key = self.spec_vertices()[i as int].spec_key();
                let value = self.spec_vertices()[i as int].spec_value()@;
                assert(out@ =~= before + render_vertex_line(key, value));
                assert(spec_vertex_lines(*self, i as int) == render_vertex_line(key, value)
                    + spec_vertex_lines(*self, i + 1));
                assert(spec_vertex_lines(*self, 0) =~= out@ + spec_vertex_lines(*self, i + 1));
            }
            i += 1;
        }
        out.append("#\n");
        proof {
            assert(spec_vertex_lines(*self, n as int) =~= Seq::<char>::empty());
            assert(spec_to_tgf(*self) =~= out@ + spec_edges_lines(*self, 0));
        }
        let mut i: usize = 0;
        while i < n
            invariant
                vs@ == self.spec_vertices(),
                n == self.spec_vertices().len(),
                0 <= i <= n,
                spec_to_tgf(*self) == out@ + spec_edges_lines(*self, i as int),
            decreases n - i,
        {
            let v = &vs[i];
            let adj = v.adjancency_list();
            let m = adj.len();
            let mut j: usize = 0;
            proof {
                assert(spec_edges_lines(*self, i as int) == spec_edge_lines_of(
                    self.spec_vertices()[i as int].spec_adj(),
                    0,
                ) + spec_edges_lines(*self, i + 1));
                assert(spec_to_tgf(*self) =~= out@ + spec_edge_lines_of(adj@, 0)
                    + spec_edges_lines(*self, i + 1));
            }
            while j < m
                invariant
                    vs@ == self.spec_vertices(),
                    n == self.spec_vertices().len(),
                    0 <= i < n,
                    adj@ == self.spec_vertices()[i as int].spec_adj(),
                    m == adj@.len(),
                    0 <= j <= m,
                    spec_to_tgf(*self) == out@ + spec_edge_lines_of(adj@, j as int)
                        + spec_edges_lines(*self, i + 1),
                decreases m - j,
            {
                let e = &adj[j];
                let ghost before = out@;
                crate::digits::append_int_digits(&mut out, e.from());
                out.append(" ");
                crate::digits::append_int_digits(&mut out, e.to());
                out.append("\n");
                proof {
                    reveal_strlit(" ");
                    reveal_strlit("\n");
                    assert(out@ =~= before + render_edge_line(adj@[j as int]));
                    assert(spec_edge_lines_of(adj@, j as int) == render_edge_line(adj@[j as int])
                        + spec_edge_lines_of(adj@, j + 1));
                    assert(spec_to_tgf(*self) =~= out@ + spec_edge_lines_of(adj@, j + 1)
                        + spec_edges_lines(*self, i + 1));
                }
                j += 1;
            }
            proof {
                assert(spec_edge_lines_of(adj@, m as int) =~= Seq::<char>::empty());
                assert(spec_to_tgf(*self) =~= out@ + spec_edges_lines(*self, i + 1));
            }
            i += 1;
        }
        proof {
            assert(spec_edges_lines(*self, n as int) =~= Seq::<char>::empty());
            assert(spec_to_tgf(*self) =~= out@);
        }
        TrivialGraphFormat { text: out }
    }

    /// Parses a Trivial Graph Format text into a directed graph with string
    /// values. Exactly the texts admitted by `spec_from_tgf` succeed, and the
    /// graph built is the one `spec_from_tgf` describes; every edge it holds
    /// has weight zero. A malformed vertex or edge line, or an edge naming an
    /// unknown vertex, fails the whole parse with the message `spec_from_tgf`
    /// gives — no partial graph is handed out.
    pub fn from_tgf(tgf: TrivialGraphFormat) -> (r: Result<Graph<String, Directed>, String>)
        ensures
            match r {
                Ok(g) => {
                    &&& spec_from_tgf(tgf@) == Ok::<Seq<VertexModel>, Seq<char>>(model_of(g))
                    &&& g.wf()
                    &&& forall|p: int, q: int|
                        0 <= p < g.spec_vertices().len() && 0 <= q < g.spec_vertices()[
                        p].spec_adj().len() ==> (#[trigger] g.spec_vertices()[p].spec_adj()[
                        q]).weight == 0
                },
                Err(m) => spec_from_tgf(tgf@) matches Err(e) && m@ == e,
            },
    {
        let text = tgf.into_string();
        let s = text.as_str();
        let ghost full = s@;
        let n = s.unicode_len();
        let mut g: Graph<String, Directed> = Graph::new();
        let mut in_edges = false;
        let mut i: usize = 0;
        proof {
            assert(full.skip(0) =~= full);
            assert(model_of(g) =~= Seq::<VertexModel>::empty());
        }
        loop
            invariant
                n == full.len(),
                s@ == full,
                full == tgf@,
                0 <= i <= n,
                g.wf(),
                forall|p: int, q: int|
                    0 <= p < g.spec_vertices().len() && 0 <= q < g.spec_vertices()[
                    p].spec_adj().len() ==> (#[trigger] g.spec_vertices()[p].spec_adj()[q]).weight
                    == 0,
                spec_from_tgf(full) == (if in_edges {
                    spec_parse_edges(full.skip(i as int), model_of(g))
                } else {
                    spec_parse_vertices(full.skip(i as int), model_of(g))
                }),
            decreases n - i,
        {
            if i >= n {
                proof {
                    assert(full.skip(i as int).len() == 0);
                }
                return Ok(g);
            }
            let ghost cur = full.skip(i as int);
            let j = crate::text::find_line_break(s, i, n);
            let le = if j > i && s.get_char(j - 1) == '\r' {
                j - 1
            } else {
                j
            };
            let next = if j < n {
                j + 1
            } else {
                n
            };
            proof {
                assert forall|k: int| 0 <= k < j - i implies cur[k] != '\n' by {
                    assert(cur[k] == full[i + k]);
                }
                if j - i < cur.len() {
                    assert(cur[j - i] == full[j as int]);
                }
                crate::text::lemma_line_len_at(cur, j - i);
                assert(cur.take(j - i) =~= full.subrange(i as int, j as int));
                assert(strip_cr(cur.take(j - i)) =~= full.subrange(i as int, le as int));
                if j < n {
                    assert(cur.skip(j - i + 1) =~= full.skip(j + 1));
                } else {
                    assert(full.skip(next as int).len() == 0);
                }
                assert((if j == n {
                    Seq::<char>::empty()
                } else {
                    cur.skip(j - i + 1)
                }) =~= full.skip(next as int));
            }
            let ghost line = full.subrange(i as int, le as int);
            if !in_edges {
                let is_sep = le == i + 1 && s.get_char(i) == '#';
                proof {
                    if is_sep {
                        assert(line.len() == 1 && line[0] == full[i as int]);
                        assert(line =~= seq!['#']);
                    } else {
                        if le == i + 1 {
                            assert(line[0] == full[i as int]);
                            assert(line != seq!['#']);
                        } else {
                            assert(line.len() != 1);
                            assert(line != seq!['#']);
                        }
                    }
                }
                if is_sep {
                    in_edges = true;
                    i = next;
                } else {
                    let toks = crate::text::tokens_of(s, i, le);
                    let ghost stoks = spec_tokens(line);
                    let ghost mapped = toks@.map_values(
                        |p: (usize, usize)| full.subrange(p.0 as int, p.1 as int),
                    );
                    if toks.len() == 0 {
                        i = next;
                    } else {
                        let t0 = toks[0];
                        proof {
                            assert(mapped[0] == full.subrange(t0.0 as int, t0.1 as int));
                        }
                        match crate::digits::parse_i64_range(s, t0.0, t0.1) {
                            None => {
                                return Err(String::from_str("couldn't parse vertex"));
                            },
                            Some(k) => {
                                let value = crate::text::join_tokens(s, &toks, 1);
                                proof {
                                    assert(mapped.skip(1) =~~= stoks.drop_first());
                                }
                                let ghost gpre = g;
                                let ghost val = value@;
                                let _ = g.insert(k, value);
                                proof {
                                    lemma_model_insert_vertex(gpre, g, k, val);
                                    assert forall|p: int, q: int|
                                        0 <= p < g.spec_vertices().len() && 0 <= q
                                            < g.spec_vertices()[p].spec_adj().len() implies (
                                    #[trigger] g.spec_vertices()[p].spec_adj()[q]).weight == 0 by {
                                        if p != g.spec_index_of(k) {
                                            assert(g.spec_vertices()[p] == gpre.spec_vertices()[
                                            p]);
                                        } else {
                                            assert(g.spec_vertices()[p] == g.spec_vertex(k));
                                        }
                                    }
                                }
                                i = next;
                            },
                        }
                    }
                }
            } else {
                if le == i {
                    proof {
                        assert(line.len() == 0);
                    }
                    return Ok(g);
                }
                let toks = crate::text::tokens_of(s, i, le);
                let ghost mapped = toks@.map_values(
                    |p: (usize, usize)| full.subrange(p.0 as int, p.1 as int),
                );
                proof {
                    assert(line.len() != 0);
                }
                if toks.len() != 2 {
                    return Err(String::from_str("couldn't parse edge"));
                }
                let t0 = toks[0];
                let t1 = toks[1];
                proof {
                    assert(mapped[0] == full.subrange(t0.0 as int, t0.1 as int));
                    assert(mapped[1] == full.subrange(t1.0 as int, t1.1 as int));
                }
                let pf = crate::digits::parse_i64_range(s, t0.0, t0.1);
                let pt = crate::digits::parse_i64_range(s, t1.0, t1.1);
                match (pf, pt) {
                    (Some(from), Some(to)) => {
                        proof {
                            lemma_model_contains(g);
                        }
                        if !g.contains(from) || !g.contains(to) {
                            return Err(
                                String::from_str("graph must contain src and dst vertecies"),
                            );
                        }
                        let ghost gpre = g;
                        match g.insert_edge_unweighted(from, to) {
                            Ok(_) => {
                                proof {
                                    lemma_model_insert_edge(gpre, g, from, to);
                                    assert forall|p: int, q: int|
                                        0 <= p < g.spec_vertices().len() && 0 <= q
                                            < g.spec_vertices()[p].spec_adj().len() implies (
                                    #[trigger] g.spec_vertices()[p].spec_adj()[q]).weight == 0 by {
                                        if p != gpre.spec_index_of(from) {
                                            assert(g.spec_vertices()[p] == gpre.spec_vertices()[
                                            p]);
                                        } else {
                                            let v2 = g.spec_vertex(from);
                                            assert(g.spec_vertices()[p] == v2);
                                            let adj = gpre.spec_vertex(from).spec_adj();
                                            let vpre = gpre.spec_vertex(from);
                                            assert(v2.spec_adj() == vpre.spec_insert_adj(to, 0));
                                            if vpre.spec_has_edge(to) {
                                                crate::vertex::lemma_swap_removed(
                                                    adj,
                                                    vpre.spec_edge_index(to),
                                                );
                                            }
                                        }
                                    }
                                }
                                i = next;
                            },
                            Err(_) => {
                                proof {
                                    assert(false);
                                }
                                return vstd::pervasive::unreached();
                            },
                        }
                    },
                    _ => {
                        return Err(String::from_str("couldn't parse vertex"));
                    },
                }
            }
        }
    }
}

/// A value string that the format carries faithfully: no line break and no
/// carriage return anywhere, and splitting it into tokens and joining them
/// again with single spaces gives it back unchanged.
pub open spec fn tgf_value_clean(v: Seq<char>) -> bool {
    &&& forall|k: int| 0 <= k < v.len() ==> v[k] != '\n' && v[k] != '\r'
    &&& join_sp(spec_tokens(v)) == v
}

/// The model the vertex phase has built after reading the first `i` vertex
/// lines of a rendered graph: those vertices with their keys and values, all
/// adjacency still empty.
pub open spec fn vertex_phase_model(g: Graph<String, Directed>, i: int) -> Seq<VertexModel> {
    Seq::new(
        i as nat,
        |p: int|
            (
                g.spec_vertices()[p].spec_key(),
                g.spec_vertices()[p].spec_value()@,
                Seq::<i64>::empty(),
            ),
    )
}

/// The model the edge phase has built once the edges of the first `i`
/// vertices and the first `j` edges of vertex `i` are in.
pub open spec fn edge_phase_model(g: Graph<String, Directed>, i: int, j: int) -> Seq<VertexModel> {
    Seq::new(
        g.spec_vertices().len(),
        |p: int|
            (
                g.spec_vertices()[p].spec_key(),
                g.spec_vertices()[p].spec_value()@,
                if p < i {
                    spec_targets(g.spec_vertices()[p].spec_adj())
                } else if p == i {
                    spec_targets(g.spec_vertices()[p].spec_adj()).take(j)
                } else {
                    Seq::<i64>::empty()
                },
            ),
    )
}

/// The canonical numeral of a key has no line break, no carriage return and
/// no whitespace in it.
proof fn lemma_digits_plain(n: i64)
    ensures
        spec_int_digits(n as int).len() > 0,
        forall|k: int|
            0 <= k < spec_int_digits(n as int).len() ==> {
                let c = #[trigger] spec_int_digits(n as int)[k];
                c != '\n' && c != '\r' && !crate::text::is_ws(c)
            },
{
    let s = spec_int_digits(n as int);
    if n >= 0 {
        crate::digits::lemma_nat_digits_are_digits(n as nat);
        assert forall|k: int| 0 <= k < s.len() implies {
            let c = #[trigger] s[k];
            c != '\n' && c != '\r' && !crate::text::is_ws(c)
        } by {
            assert(crate::digits::is_digit(s[k]));
        }
    } else {
        let m = (-(n as int)) as nat;
        crate::digits::lemma_nat_digits_are_digits(m);
        let body = crate::digits::spec_nat_digits(m);
        assert forall|k: int| 0 <= k < s.len() implies {
            let c = #[trigger] s[k];
            c != '\n' && c != '\r' && !crate::text::is_ws(c)
        } by {
            if k == 0 {
                assert(s[0] == '-');
            } else {
                assert(s[k] == body[k - 1]);
                assert(crate::digits::is_digit(body[k - 1]));
            }
        }
    }
}

/// Reading the rendered vertex lines from position `i` on inserts exactly the
/// remaining vertices, then moves to the edge phase.
proof fn lemma_parse_vertex_lines(g: Graph<String, Directed>, i: int)
    requires
        g.wf(),
        0 <= i <= g.spec_vertices().len(),
        forall|p: int|
            0 <= p < g.spec_vertices().len() ==> tgf_value_clean(
                (#[trigger] g.spec_vertices()[p]).spec_value()@,
            ),
    ensures
        spec_parse_vertices(
            spec_vertex_lines(g, i) + seq!['#', '\n'] + spec_edges_lines(g, 0),
            vertex_phase_model(g, i),
        ) == spec_parse_edges(
            spec_edges_lines(g, 0),
            vertex_phase_model(g, g.spec_vertices().len() as int),
        ),
    decreases g.spec_vertices().len() - i,
{
    let len = g.spec_vertices().len() as int;
    let elines = spec_edges_lines(g, 0);
    let acc = vertex_phase_model(g, i);
    if i == len {
        let s = spec_vertex_lines(g, i) + seq!['#', '\n'] + elines;
        assert(spec_vertex_lines(g, i) =~= Seq::<char>::empty());
        assert(s =~= seq!['#'] + seq!['\n'] + elines);
        assert(s[0] == '#' && s[1] == '\n');
        assert(forall|k: int| 0 <= k < 1 ==> s[k] != '\n');
        crate::text::lemma_line_len_at(s, 1);
        assert(line_len(s) == 1);
        assert(s.take(1) =~= seq!['#']);
        assert(strip_cr(s.take(1)) == seq!['#']);
        assert(s.skip(2) =~= elines);
        assert(spec_parse_vertices(s, acc) == spec_parse_edges(elines, acc));
    } else {
        let key = g.spec_vertices()[i].spec_key();
        let value = g.spec_vertices()[i].spec_value()@;
        let d = spec_int_digits(key as int);
        let a = d + seq![' '] + value;
        let rest = spec_vertex_lines(g, i + 1) + seq!['#', '\n'] + elines;
        let s = spec_vertex_lines(g, i) + seq!['#', '\n'] + elines;
        lemma_digits_plain(key);
        assert(s =~= a + seq!['\n'] + rest) by {
            assert(spec_vertex_lines(g, i) == render_vertex_line(key, value) + spec_vertex_lines(
                g,
                i + 1,
            ));
        }
        // The first line is `a`, unchanged by the carriage-return strip.
        assert forall|k: int| 0 <= k < a.len() implies a[k] != '\n' by {
            if k < d.len() {
                assert(a[k] == d[k]);
            } else if k == d.len() {
                assert(a[k] == ' ');
            } else {
                assert(a[k] == value[k - d.len() - 1]);
            }
        }
        assert forall|k: int| 0 <= k < s.len() && k < a.len() implies s[k] != '\n' by {
            assert(s[k] == a[k]);
        }
        assert(s[a.len() as int] == '\n');
        crate::text::lemma_line_len_at(s, a.len() as int);
        assert(s.take(a.len() as int) =~= a);
        assert(a.last() != '\r') by {
            if value.len() > 0 {
                assert(a.last() == value[value.len() - 1]);
            } else {
                assert(a.last() == ' ');
            }
        }
        assert(strip_cr(a) == a);
        assert(s.skip(a.len() as int + 1) =~= rest);
        // The line is no separator: it is at least two characters long.
        assert(a.len() >= 2);
        assert(strip_cr(s.take(a.len() as int)) != seq!['#']);
        // Its tokens: the key numeral, then the tokens of the value.
        crate::text::lemma_tokens_step(d, value);
        let toks = spec_tokens(a);
        assert(toks == seq![d] + spec_tokens(value));
        assert(toks.len() >= 1);
        assert(toks[0] == d);
        crate::digits::lemma_parse_int_digits(key);
        assert(spec_parse_i64(toks[0]) == Some(key));
        assert(toks.drop_first() =~~= spec_tokens(value));
        assert(join_sp(toks.drop_first()) == value);
        // Inserting the key extends the prefix model by one vertex.
        assert(!model_contains(acc, key)) by {
            if model_contains(acc, key) {
                let p = model_index_of(acc, key);
                assert(0 <= p < i && acc[p].0 == key);
                assert(g.spec_vertices()[p].spec_key() == key);
                assert(p != i);
                assert(g.spec_vertices()[p].spec_key() != g.spec_vertices()[i].spec_key());
            }
        }
        assert(model_insert_vertex(acc, key, value) =~~= vertex_phase_model(g, i + 1));
        lemma_parse_vertex_lines(g, i + 1);
        assert(spec_parse_vertices(s, acc) == spec_parse_vertices(
            rest,
            vertex_phase_model(g, i + 1),
        ));
    }
}

/// Reading the rendered edge lines from vertex `i`, edge `j` on inserts
/// exactly the remaining edges and ends with the full model of the graph.
proof fn lemma_parse_edge_lines(g: Graph<String, Directed>, i: int, j: int)
    requires
        g.wf(),
        g.spec_closed(),
        0 <= i <= g.spec_vertices().len(),
        i < g.spec_vertices().len() ==> 0 <= j <= g.spec_vertices()[i].spec_adj().len(),
        i == g.spec_vertices().len() ==> j == 0,
    ensures
        spec_parse_edges(
            if i == g.spec_vertices().len() {
                Seq::<char>::empty()
            } else {
                spec_edge_lines_of(g.spec_vertices()[i].spec_adj(), j) + spec_edges_lines(g, i + 1)
            },
            edge_phase_model(g, i, j),
        ) == Ok::<Seq<VertexModel>, Seq<char>>(model_of(g)),
    decreases
            g.spec_vertices().len() - i,
            (if i < g.spec_vertices().len() {
                g.spec_vertices()[i].spec_adj().len() - j
            } else {
                0int
            }),
{
    let len = g.spec_vertices().len() as int;
    let acc = edge_phase_model(g, i, j);
    if i == len {
        assert(acc =~~= model_of(g)) by {
            assert forall|p: int| 0 <= p < len implies acc[p] == model_of(g)[p] by {
                assert(p < i);
            }
        }
    } else {
        let adj = g.spec_vertices()[i].spec_adj();
        let key = g.spec_vertices()[i].spec_key();
        if j == adj.len() {
            assert(spec_edge_lines_of(adj, j) =~= Seq::<char>::empty());
            assert(spec_edge_lines_of(adj, j) + spec_edges_lines(g, i + 1) =~= (if i + 1 == len {
                Seq::<char>::empty()
            } else {
                spec_edge_lines_of(g.spec_vertices()[i + 1].spec_adj(), 0) + spec_edges_lines(
                    g,
                    i + 2,
                )
            }));
            assert(acc =~~= edge_phase_model(g, i + 1, 0)) by {
                assert forall|p: int| 0 <= p < len implies acc[p] == edge_phase_model(g, i + 1, 0)[
                p] by {
                    if p == i {
                        assert(spec_targets(adj).take(j) =~= spec_targets(adj));
                    } else if p == i + 1 {
                        assert(spec_targets(g.spec_vertices()[p].spec_adj()).take(0)
                            =~= Seq::<i64>::empty());
                    }
                }
            }
            lemma_parse_edge_lines(g, i + 1, 0);
        } else {
            let e = adj[j];
            assert(e.from == key);
            let d1 = spec_int_digits(e.from as int);
            let d2 = spec_int_digits(e.to as int);
            let a = d1 + seq![' '] + d2;
            let rest = spec_edge_lines_of(adj, j + 1) + spec_edges_lines(g, i + 1);
            let s = spec_edge_lines_of(adj, j) + spec_edges_lines(g, i + 1);
            lemma_digits_plain(e.from);
            lemma_digits_plain(e.to);
            assert(s =~= a + seq!['\n'] + rest) by {
                assert(spec_edge_lines_of(adj, j) == render_edge_line(e) + spec_edge_lines_of(
                    adj,
                    j + 1,
                ));
            }
            assert forall|k: int| 0 <= k < a.len() implies a[k] != '\n' && a[k] != '\r' by {
                if k < d1.len() {
                    assert(a[k] == d1[k]);
                } else if k == d1.len() {
                    assert(a[k] == ' ');
                } else {
                    assert(a[k] == d2[k - d1.len() - 1]);
                }
            }
            assert forall|k: int| 0 <= k < s.len() && k < a.len() implies s[k] != '\n' by {
                assert(s[k] == a[k]);
            }
            assert(s[a.len() as int] == '\n');
            crate::text::lemma_line_len_at(s, a.len() as int);
            assert(s.take(a.len() as int) =~= a);
            assert(a.last() != '\r');
            assert(strip_cr(a) == a);
            assert(s.skip(a.len() as int + 1) =~= rest);
            assert(a.len() != 0);
            // Its two tokens are the endpoint numerals.
            assert forall|k: int| 0 <= k < d2.len() implies !crate::text::is_ws(
                #[trigger] d2[k],
            ) by {}
            crate::text::lemma_tokens_single(d2);
            crate::text::lemma_tokens_step(d1, d2);
            let toks = spec_tokens(a);
            assert(toks =~~= seq![d1, d2]) by {
                assert(toks == seq![d1] + spec_tokens(d2));
            }
            crate::digits::lemma_parse_int_digits(e.from);
            crate::digits::lemma_parse_int_digits(e.to);
            assert(spec_parse_i64(toks[0]) == Some(e.from));
            assert(spec_parse_i64(toks[1]) == Some(e.to));
            // Both endpoints are in the accumulated model.
            assert(acc[i].0 == key);
            assert(model_contains(acc, e.from));
            assert(g.spec_contains(e.to));
            let ti = g.spec_index_of(e.to);
            assert(0 <= ti < len && g.spec_vertices()[ti].spec_key() == e.to);
            assert(acc[ti].0 == e.to);
            assert(model_contains(acc, e.to));
            // Inserting the edge extends vertex `i`'s recovered targets by one.
            let mi = model_index_of(acc, e.from);
            assert(0 <= mi < len && acc[mi].0 == e.from);
            assert(g.spec_vertices()[mi].spec_key() == e.from);
            assert(mi == i);
            let ts = spec_targets(adj).take(j);
            assert(acc[i].2 == ts);
            assert(!ts.contains(e.to)) by {
                if ts.contains(e.to) {
                    let q = choose|q: int| 0 <= q < ts.len() && ts[q] == e.to;
                    assert(ts[q] == spec_targets(adj)[q]);
                    assert(adj[q].to == e.to);
                    assert(q != j);
                    assert(adj[q].to != adj[j].to);
                }
            }
            assert(model_insert_edge(acc, e.from, e.to) =~~= edge_phase_model(g, i, j + 1)) by {
                let nxt = edge_phase_model(g, i, j + 1);
                let got = model_insert_edge(acc, e.from, e.to);
                assert(got == acc.update(i, (acc[i].0, acc[i].1, ts.push(e.to))));
                assert forall|p: int| 0 <= p < len implies got[p] == nxt[p] by {
                    if p == i {
                        assert(ts.push(e.to) =~= spec_targets(adj).take(j + 1)) by {
                            assert(spec_targets(adj)[j] == e.to);
                        }
                    }
                }
            }
            lemma_parse_edge_lines(g, i, j + 1);
            assert(spec_parse_edges(s, acc) == spec_parse_edges(
                rest,
                edge_phase_model(g, i, j + 1),
            ));
        }
    }
}

/// Round trip through the Trivial Graph Format: parsing the rendering of a
/// well-formed graph whose edges all land on present vertices and whose
/// values the format carries faithfully rebuilds exactly the graph's model —
/// the same keys and values in the same order, and the same edges in the
/// same order. The format holds no weights, so the rebuilt edges are the
/// unweighted ones.
pub proof fn lemma_tgf_round_trip(g: Graph<String, Directed>)
    requires
        g.wf(),
        g.spec_closed(),
        forall|p: int|
            0 <= p < g.spec_vertices().len() ==> tgf_value_clean(
                (#[trigger] g.spec_vertices()[p]).spec_value()@,
            ),
    ensures
        spec_from_tgf(spec_to_tgf(g)) == Ok::<Seq<VertexModel>, Seq<char>>(model_of(g)),
{
    let len = g.spec_vertices().len() as int;
    assert(vertex_phase_model(g, 0) =~~= Seq::<VertexModel>::empty());
    lemma_parse_vertex_lines(g, 0);
    assert(vertex_phase_model(g, len) =~~= edge_phase_model(g, 0, 0)) by {
        assert forall|p: int| 0 <= p < len implies vertex_phase_model(g, len)[p]
            == edge_phase_model(g, 0, 0)[p] by {
            if p == 0 {
                assert(spec_targets(g.spec_vertices()[p].spec_adj()).take(0)
                    =~= Seq::<i64>::empty());
            }
        }
    }
    lemma_parse_edge_lines(g, 0, 0);
    if len == 0 {
        assert(spec_edges_lines(g, 0) =~= Seq::<char>::empty());
    } else {
        assert(spec_edges_lines(g, 0) == spec_edge_lines_of(g.spec_vertices()[0].spec_adj(), 0)
            + spec_edges_lines(g, 1));
    }
}

impl TgfConvertible for Graph<String, Directed> {
    fn to_tgf(&self) -> TrivialGraphFormat {
        Graph::to_tgf(self)
    }

    fn from_tgf(tgf: TrivialGraphFormat) -> Result<Graph<String, Directed>, String> {
        Graph::from_tgf(tgf)
    }
}

} // verus!
