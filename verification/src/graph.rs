//! Adjacency-list graph with a line-oriented text deserializer.

use vstd::prelude::*;
use vstd::string::StrSliceExecFns;
use crate::parse::{
    spec_parse_graph, spec_parse_lines, spec_parse_input, pad_lines, lemma_parse_lines_len,
    find_char, parse_usize_in, parse_line_in, TokenFault,
};

verus! {

/// The adjacency lists seen as a sequence of sequences of edges.
pub open spec fn adj_views(a: Seq<Vec<(usize, usize)>>) -> Seq<Seq<(usize, usize)>> {
    Seq::new(a.len(), |i: int| a[i]@)
}

/// Directed graph stored as adjacency lists: index `v` of `adj` holds the
/// pairs `(neighbor, weight)` of the edges leaving vertex `v`.
///
/// The representation itself does not enforce that neighbor ids are valid
/// indices; see [`graph_wf`].
#[derive(Debug)]
pub struct Graph {
    /// The adjacency list.
    pub adj: Vec<Vec<(usize, usize)>>,
}

impl View for Graph {
    type V = Seq<Seq<(usize, usize)>>;

    open spec fn view(&self) -> Seq<Seq<(usize, usize)>> {
        adj_views(self.adj@)
    }
}

/// Every neighbor id stored in the adjacency lists is a valid vertex index.
pub open spec fn graph_wf(g: Seq<Seq<(usize, usize)>>) -> bool {
    forall|u: int, j: int|
        0 <= u < g.len() && 0 <= j < g[u].len() ==> (#[trigger] g[u][j]).0 < g.len()
}

/// Total number of directed edge entries, duplicates and self-loops counted
/// as stored.
pub open spec fn spec_edge_count(g: Seq<Seq<(usize, usize)>>) -> int
    decreases g.len(),
{
    if g.len() == 0 {
        0
    } else {
        spec_edge_count(g.drop_last()) + g.last().len()
    }
}

impl Graph {
    /// Create a graph from a given adjacency list.
    pub fn new(adj: Vec<Vec<(usize, usize)>>) -> (g: Self)
        ensures
            g@ == adj_views(adj@),
    {
        Self { adj }
    }

    /// Number of vertices.
    pub fn n_vertices(&self) -> (n: usize)
        ensures
            n == self@.len(),
    {
        self.adj.len()
    }

    /// Number of edges. The total must fit in `usize`.
    pub fn n_edges(&self) -> (n: usize)
        requires
            spec_edge_count(self@) <= usize::MAX,
        ensures
            n == spec_edge_count(self@),
    {
        let mut total: usize = 0;
        let mut i: usize = 0;
        proof {
            lemma_edge_count_prefix(self@, 0);
        }
        while i < self.adj.len()
            invariant
                i <= self.adj@.len(),
                self@.len() == self.adj@.len(),
                forall|k: int| 0 <= k < self@.len() ==> self@[k] == self.adj@[k]@,
                total == spec_edge_count(self@.take(i as int)),
                spec_edge_count(self@) <= usize::MAX,
            decreases self.adj@.len() - i,
        {
            proof {
                lemma_edge_count_prefix(self@, i + 1);
                lemma_edge_count_prefix_monotone(self@, i + 1);
                assert(self@.take(i + 1).drop_last() =~= self@.take(i as int));
                assert(self@.take(i + 1).last() == self@[i as int]);
            }
            total = total + self.adj[i].len();
            i += 1;
        }
        proof {
            assert(self@.take(self@.len() as int) =~= self@);
        }
        total
    }

    /// The neighbors of a vertex with their edge weights. The vertex must be
    /// a valid index.
    pub fn neighbors_of(&self, vertex: usize) -> (r: &[(usize, usize)])
        requires
            vertex < self@.len(),
        ensures
            r@ == self@[vertex as int],
    {
        self.adj[vertex].as_slice()
    }
}

proof fn lemma_edge_count_prefix(g: Seq<Seq<(usize, usize)>>, i: int)
    requires
        0 <= i <= g.len(),
    ensures
        spec_edge_count(g.take(i)) >= 0,
    decreases i,
{
    if i == 0 {
        assert(g.take(0).len() == 0);
    } else {
        lemma_edge_count_prefix(g, i - 1);
        assert(g.take(i).drop_last() =~= g.take(i - 1));
    }
}

/// A prefix never counts more edges than the whole.
proof fn lemma_edge_count_prefix_monotone(g: Seq<Seq<(usize, usize)>>, i: int)
    requires
        0 <= i <= g.len(),
    ensures
        spec_edge_count(g.take(i)) <= spec_edge_count(g),
    decreases g.len() - i,
{
    if i == g.len() {
        assert(g.take(i) =~= g);
    } else {
        lemma_edge_count_prefix_monotone(g, i + 1);
        assert(g.take(i + 1).drop_last() =~= g.take(i));
        assert(g.take(i + 1).last() == g[i]);
    }
}

/// Graph equality: same vertex count and, for each vertex, the same
/// collection of (neighbor, weight) pairs with duplicates counted and order
/// ignored.
pub open spec fn graph_equiv(a: Seq<Seq<(usize, usize)>>, b: Seq<Seq<(usize, usize)>>) -> bool {
    &&& a.len() == b.len()
    &&& forall|v: int|
        0 <= v < a.len() ==> (#[trigger] a[v]).to_multiset() == b[v].to_multiset()
}

/// Multiset count of the pair `x` among the elements of `s`.
#[verifier::loop_isolation(false)]
fn count_pair(s: &Vec<(usize, usize)>, x: (usize, usize)) -> (c: usize)
    ensures
        c == s@.to_multiset().count(x),
{
    broadcast use vstd::seq_lib::group_to_multiset_ensures;
    broadcast use vstd::multiset::group_multiset_axioms;

    let n = s.len();
    let mut c: usize = 0;
    let mut i: usize = 0;
    proof {
        assert(s@.take(0) =~= Seq::<(usize, usize)>::empty());
        assert(!Seq::<(usize, usize)>::empty().contains(x));
        assert(s@.take(0).to_multiset().count(x) == 0);
    }
    while i < n
        invariant
            i <= n,
            c <= i,
            c == s@.take(i as int).to_multiset().count(x),
        decreases n - i,
    {
        let hit = s[i].0 == x.0 && s[i].1 == x.1;
        proof {
            assert(s@.take(i + 1) =~= s@.take(i as int).push(s@[i as int]));
            assert(s@.take(i + 1).to_multiset() =~= s@.take(i as int).to_multiset().insert(
                s@[i as int],
            ));
        }
        if hit {
            c += 1;
        }
        i += 1;
    }
    proof {
        assert(s@.take(n as int) =~= s@);
    }
    c
}

/// Do two neighbor lists hold the same pairs, duplicates counted and order
/// ignored?
#[verifier::loop_isolation(false)]
fn neighbors_equal(a: &Vec<(usize, usize)>, b: &Vec<(usize, usize)>) -> (r: bool)
    ensures
        r == (a@.to_multiset() == b@.to_multiset()),
{
    broadcast use vstd::seq_lib::group_to_multiset_ensures;
    broadcast use vstd::multiset::group_multiset_axioms;

    if a.len() != b.len() {
        proof {
            assert(a@.to_multiset().len() == a@.len());
            assert(b@.to_multiset().len() == b@.len());
        }
        return false;
    }
    let n = a.len();
    let mut i: usize = 0;
    while i < n
        invariant
            i <= n,
            forall|k: int|
                0 <= k < i ==> a@.to_multiset().count(#[trigger] a@[k]) == b@.to_multiset().count(
                    a@[k],
                ),
        decreases n - i,
    {
        let x = a[i];
        let ca = count_pair(a, x);
        let cb = count_pair(b, x);
        if ca != cb {
            return false;
        }
        i += 1;
    }
    let mut i2: usize = 0;
    while i2 < n
        invariant
            i2 <= n,
            forall|k: int|
                0 <= k < i2 ==> a@.to_multiset().count(#[trigger] b@[k]) == b@.to_multiset().count(
                    b@[k],
                ),
        decreases n - i2,
    {
        let x = b[i2];
        let ca = count_pair(a, x);
        let cb = count_pair(b, x);
        if ca != cb {
            return false;
        }
        i2 += 1;
    }
    proof {
        assert forall|x: (usize, usize)| a@.to_multiset().count(x) == b@.to_multiset().count(x) by {
            if a@.contains(x) {
                let k = choose|k: int| 0 <= k < a@.len() && a@[k] == x;
                assert(a@.to_multiset().count(a@[k]) == b@.to_multiset().count(a@[k]));
            } else if b@.contains(x) {
                let k = choose|k: int| 0 <= k < b@.len() && b@[k] == x;
                assert(a@.to_multiset().count(b@[k]) == b@.to_multiset().count(b@[k]));
            } else {
                assert(a@.to_multiset().count(x) == 0);
                assert(b@.to_multiset().count(x) == 0);
            }
        }
        assert(a@.to_multiset() =~= b@.to_multiset());
    }
    true
}

impl PartialEq for Graph {
    /// Order-independent comparison: for each vertex the neighbor lists must
    /// hold the same pairs, duplicates counted.
    #[verifier::loop_isolation(false)]
    fn eq(&self, other: &Graph) -> (r: bool) {
        if self.adj.len() != other.adj.len() {
            return false;
        }
        let n = self.adj.len();
        let mut v: usize = 0;
        while v < n
            invariant
                v <= n,
                forall|k: int|
                    0 <= k < v ==> (#[trigger] self@[k]).to_multiset() == other@[k].to_multiset(),
            decreases n - v,
        {
            if !neighbors_equal(&self.adj[v], &other.adj[v]) {
                proof {
                    assert(self@[v as int] == self.adj@[v as int]@);
                    assert(other@[v as int] == other.adj@[v as int]@);
                    assert(self@[v as int].to_multiset() != other@[v as int].to_multiset());
                }
                return false;
            }
            v += 1;
        }
        true
    }
}

impl vstd::std_specs::cmp::PartialEqSpecImpl for Graph {
    open spec fn obeys_eq_spec() -> bool {
        true
    }

    open spec fn eq_spec(&self, other: &Graph) -> bool {
        graph_equiv(self@, other@)
    }
}

/// The error returned when parsing a graph from text fails; it carries a
/// human-readable cause naming the stage that failed.
#[derive(Debug, PartialEq, Eq)]
pub struct ParseGraphError(String);

impl ParseGraphError {
    /// The human-readable cause of the failure.
    pub fn message(&self) -> &str {
        self.0.as_str()
    }
}

/// The error returned when a whole-run input cannot be parsed; it carries a
/// human-readable cause naming the stage that failed.
#[derive(Debug)]
pub struct InputError(String);

impl InputError {
    /// The human-readable cause of the failure.
    pub fn message(&self) -> &str {
        self.0.as_str()
    }
}

impl Graph {
    /// Parse the graph text format: a first line holding the vertex count
    /// `n`, then up to `n` lines of whitespace-separated `<id>,<weight>`
    /// tokens; missing trailing lines are vertices with no outgoing edges.
    /// The result is pinned to [`spec_parse_graph`] on success and failure
    /// alike.
    #[verifier::loop_isolation(false)]
    #[verifier::rlimit(60)]
    pub fn from_str(s: &str) -> (r: Result<Graph, ParseGraphError>)
        ensures
            match r {
                Ok(gr) => spec_parse_graph(s@) == Some(gr@),
                Err(e) => spec_parse_graph(s@) is None,
            },
    {
        let len = s.unicode_len();
        let hdr_end = find_char(s, 0, len, '\n');
        if hdr_end >= len {
            return Err(ParseGraphError("cannot split on newline".to_owned()));
        }
        let n_vertex = match parse_usize_in(s, 0, hdr_end) {
            Some(n) => n,
            None => {
                return Err(ParseGraphError("cannot parse n_vertices".to_owned()));
            }
        };
        let mut adj: Vec<Vec<(usize, usize)>> = Vec::new();
        let mut pos = hdr_end + 1;
        proof {
            assert(adj_views(adj@) =~= Seq::<Seq<(usize, usize)>>::empty());
            if spec_parse_lines(s@, pos as int, n_vertex as int) is Some {
                let ls = spec_parse_lines(s@, pos as int, n_vertex as int)->Some_0;
                assert(Seq::<Seq<(usize, usize)>>::empty() + pad_lines(ls, n_vertex as int)
                    =~= pad_lines(ls, n_vertex as int));
            }
        }
        while adj.len() < n_vertex && pos < len
            invariant
                adj@.len() <= n_vertex,
                hdr_end < pos <= len,
                (match spec_parse_lines(s@, pos as int, n_vertex - adj@.len()) {
                    Some(ls) => spec_parse_graph(s@) == Some(
                        adj_views(adj@) + pad_lines(ls, n_vertex - adj@.len()),
                    ),
                    None => spec_parse_graph(s@) is None,
                }),
            decreases len - pos,
        {
            let ghost rem = n_vertex - adj@.len();
            let e = find_char(s, pos, len, '\n');
            let stripped_end = if e > pos && s.get_char(e - 1) == '\r' {
                e - 1
            } else {
                e
            };
            let neigh = match parse_line_in(s, pos, stripped_end) {
                Ok(v) => v,
                Err(TokenFault::MissingComma) => {
                    return Err(ParseGraphError("vertex doesnt have weight with it".to_owned()));
                }
                Err(TokenFault::Vertex) => {
                    return Err(ParseGraphError("cannot parse vertex".to_owned()));
                }
                Err(TokenFault::Weight) => {
                    return Err(ParseGraphError("cannot parse weight".to_owned()));
                }
            };
            let ghost adj0 = adj@;
            adj.push(neigh);
            let next_pos = if e < len {
                e + 1
            } else {
                len
            };
            proof {
                let ls0 = spec_parse_lines(s@, pos as int, rem);
                let ls1 = spec_parse_lines(s@, e as int + 1, rem - 1);
                assert(spec_parse_lines(s@, next_pos as int, rem - 1) == ls1) by {
                    if e >= len {
                        assert(spec_parse_lines(s@, e as int + 1, rem - 1) == Some(
                            Seq::<Seq<(usize, usize)>>::empty(),
                        ));
                        assert(spec_parse_lines(s@, len as int, rem - 1) == Some(
                            Seq::<Seq<(usize, usize)>>::empty(),
                        ));
                    }
                }
                match ls1 {
                    None => {
                        assert(ls0 is None);
                    }
                    Some(rest) => {
                        assert(ls0 == Some(seq![neigh@] + rest));
                        lemma_parse_lines_len(s@, e as int + 1, rem - 1);
                        assert(adj_views(adj@) =~= adj_views(adj0).push(neigh@));
                        assert(adj_views(adj0) + pad_lines(seq![neigh@] + rest, rem)
                            =~= adj_views(adj@) + pad_lines(rest, rem - 1));
                    }
                }
            }
            pos = next_pos;
        }
        proof {
            let rem = n_vertex - adj@.len();
            if adj@.len() < n_vertex {
                assert(pos == len);
                assert(spec_parse_lines(s@, pos as int, rem) == Some(
                    Seq::<Seq<(usize, usize)>>::empty(),
                ));
            } else {
                assert(spec_parse_lines(s@, pos as int, rem) == Some(
                    Seq::<Seq<(usize, usize)>>::empty(),
                ));
            }
            assert(pad_lines(Seq::<Seq<(usize, usize)>>::empty(), rem) =~= Seq::new(
                rem as nat,
                |i: int| Seq::<(usize, usize)>::empty(),
            ));
        }
        while adj.len() < n_vertex
            invariant
                adj@.len() <= n_vertex,
                spec_parse_graph(s@) == Some(
                    adj_views(adj@) + Seq::new(
                        (n_vertex - adj@.len()) as nat,
                        |i: int| Seq::<(usize, usize)>::empty(),
                    ),
                ),
            decreases n_vertex - adj@.len(),
        {
            let ghost adj0 = adj@;
            adj.push(Vec::new());
            proof {
                assert(adj_views(adj@) =~= adj_views(adj0).push(Seq::<(usize, usize)>::empty()));
                assert(adj_views(adj0) + Seq::new(
                    (n_vertex - adj0.len()) as nat,
                    |i: int| Seq::<(usize, usize)>::empty(),
                ) =~= adj_views(adj@) + Seq::new(
                    (n_vertex - adj@.len()) as nat,
                    |i: int| Seq::<(usize, usize)>::empty(),
                ));
            }
        }
        proof {
            assert(adj_views(adj@) + Seq::new(0nat, |i: int| Seq::<(usize, usize)>::empty())
                =~= adj_views(adj@));
        }
        Ok(Graph { adj })
    }
}

/// Split a whole-run input text into its source vertex (the first line) and
/// the graph written on the remaining lines.
pub fn parse_input(contents: &str) -> (r: Result<(usize, Graph), InputError>)
    ensures
        match r {
            Ok(p) => spec_parse_input(contents@) == Some((p.0, p.1@)),
            Err(e) => spec_parse_input(contents@) is None,
        },
{
    let len = contents.unicode_len();
    let e = find_char(contents, 0, len, '\n');
    if e >= len {
        return Err(InputError("cannot split on newline".to_owned()));
    }
    let sv = match parse_usize_in(contents, 0, e) {
        Some(v) => v,
        None => {
            return Err(InputError("cannot parse start vertex".to_owned()));
        }
    };
    let rest = contents.substring_char(e + 1, len);
    proof {
        assert(rest@ =~= contents@.subrange(e as int + 1, len as int));
    }
    match Graph::from_str(rest) {
        Ok(g) => Ok((sv, g)),
        Err(pe) => Err(InputError("cannot parse graph".to_owned())),
    }
}

} // verus!
