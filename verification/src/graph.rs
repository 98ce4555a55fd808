//! Undirected graphs over numbered cells, and the king-move grid.

use std::collections::BTreeMap;
use std::collections::BTreeSet;
use vstd::prelude::*;

verus! {

/// Whether two coordinates differ by at most one.
pub open spec fn near(i: int, j: int) -> bool {
    i - j <= 1 && j - i <= 1
}

/// King-move adjacency on a `width` by `height` grid whose cells are numbered
/// from 0 in row-major order: two distinct cells are adjacent when they are at
/// most one row and at most one column apart.
pub open spec fn king_adjacent(width: int, height: int, a: int, b: int) -> bool {
    &&& 0 <= a < width * height
    &&& 0 <= b < width * height
    &&& a != b
    &&& near(a % width, b % width)
    &&& near(a / width, b / width)
}

/// The cell in row `r` and column `c` of a grid of width `w` has that row and
/// that column.
pub proof fn lemma_cell_coordinates(w: int, r: int, c: int)
    requires
        0 <= c < w,
    ensures
        (r * w + c) / w == r,
        (r * w + c) % w == c,
{
    vstd::arithmetic::div_mod::lemma_fundamental_div_mod_converse(r * w + c, w, r, c);
}

/// A cell of a `w` by `h` grid is its row times `w` plus its column, and both
/// lie within the grid.
pub proof fn lemma_cell_in_grid(w: int, h: int, a: int)
    requires
        0 <= a < w * h,
        0 < w,
    ensures
        a == (a / w) * w + a % w,
        0 <= a % w < w,
        0 <= a / w < h,
{
    vstd::arithmetic::div_mod::lemma_fundamental_div_mod(a, w);
    vstd::arithmetic::div_mod::lemma_mod_bound(a, w);
    let r = a / w;
    assert(w * r == r * w) by (nonlinear_arith);
    assert(0 <= r) by (nonlinear_arith)
        requires
            0 <= a,
            0 < w,
            a == r * w + a % w,
            a % w < w,
    ;
    assert(r < h) by (nonlinear_arith)
        requires
            a < w * h,
            0 < w,
            a == r * w + a % w,
            0 <= a % w,
    ;
}

/// The neighbors of cell `a` are the cells one step away in each of the eight
/// directions, as far as the grid holds them.
pub proof fn lemma_king_neighbors(w: int, h: int, a: int, b: int)
    requires
        0 < w,
        0 <= a < w * h,
    ensures
        king_adjacent(w, h, a, b) <==> ({
            let right = a % w + 1 < w;
            let left = a % w != 0;
            let down = a / w + 1 < h;
            let up = a / w != 0;
            ||| (right && b == a + 1)
            ||| (left && b == a - 1)
            ||| (down && b == a + w)
            ||| (up && b == a - w)
            ||| (down && right && b == a + w + 1)
            ||| (down && left && b == a + w - 1)
            ||| (up && right && b == a - w + 1)
            ||| (up && left && b == a - w - 1)
        }),
{
    lemma_cell_in_grid(w, h, a);
    let r = a / w;
    let c = a % w;
    assert((r + 1) * w == r * w + w) by (nonlinear_arith);
    assert((r - 1) * w == r * w - w) by (nonlinear_arith);
    if king_adjacent(w, h, a, b) {
        lemma_cell_in_grid(w, h, b);
        let rb = b / w;
    }
    assert((r + 1) * w <= w * h) by (nonlinear_arith)
        requires
            r + 1 <= h,
            0 < w,
    ;
    if c + 1 < w {
        lemma_cell_coordinates(w, r, c + 1);
    }
    if c != 0 {
        lemma_cell_coordinates(w, r, c - 1);
    }
    if r + 1 < h {
        assert((r + 1) * w + w <= w * h) by (nonlinear_arith)
            requires
                r + 1 < h,
                0 < w,
        ;
        lemma_cell_coordinates(w, r + 1, c);
        if c + 1 < w {
            lemma_cell_coordinates(w, r + 1, c + 1);
        }
        if c != 0 {
            lemma_cell_coordinates(w, r + 1, c - 1);
        }
    }
    if r != 0 {
        assert(0 <= (r - 1) * w) by (nonlinear_arith)
            requires
                1 <= r,
                0 < w,
        ;
        lemma_cell_coordinates(w, r - 1, c);
        if c + 1 < w {
            lemma_cell_coordinates(w, r - 1, c + 1);
        }
        if c != 0 {
            lemma_cell_coordinates(w, r - 1, c - 1);
        }
    }
}

/// The neighbors of cell `n` that have a larger number than `n` are the cell to
/// its right and the three cells below it, as far as the grid holds them.
pub proof fn lemma_forward_neighbors(w: int, h: int, n: int, b: int)
    requires
        0 < w,
        0 <= n < w * h,
    ensures
        (king_adjacent(w, h, n, b) && n < b) <==> ({
            let right = n % w + 1 < w;
            let down = n / w + 1 < h;
            let left = n % w != 0;
            ||| (right && b == n + 1)
            ||| (right && down && b == n + 1 + w)
            ||| (down && b == n + w)
            ||| (down && left && b == n - 1 + w)
        }),
{
    lemma_king_neighbors(w, h, n, b);
    lemma_cell_in_grid(w, h, n);
}

/// An undirected graph over cell ids.
///
/// Each cell that has at least one neighbor is a node of the graph and owns
/// the set of its neighbors.
#[derive(Debug, PartialEq)]
pub struct Graph(BTreeMap<usize, BTreeSet<usize>>);

/// Whether `adj` lists `y` among the neighbors of `x`.
spec fn listed(adj: Map<usize, BTreeSet<usize>>, x: usize, y: usize) -> bool {
    adj.contains_key(x) && adj[x]@.contains(y)
}

impl Graph {
    /// Whether `x` is a node of the graph.
    pub closed spec fn has_node(&self, x: usize) -> bool {
        self.0@.contains_key(x)
    }

    /// The neighbors recorded for `x`; empty where `x` is no node.
    pub closed spec fn neighbors_of(&self, x: usize) -> Set<usize> {
        Set::new(|y: usize| listed(self.0@, x, y))
    }

    /// Whether the graph records `y` as a neighbor of `x`.
    pub open spec fn adjacent(&self, x: usize, y: usize) -> bool {
        self.neighbors_of(x).contains(y)
    }

    /// The nodes of the graph.
    pub open spec fn nodes(&self) -> Set<usize> {
        Set::new(|x: usize| self.has_node(x))
    }

    /// A graph is well formed when neighbor membership is mutual. Every graph
    /// is.
    #[verifier::type_invariant]
    pub open spec fn wf(&self) -> bool {
        forall|x: usize, y: usize| self.adjacent(x, y) <==> self.adjacent(y, x)
    }

    /// Only nodes have neighbors, and in a well-formed graph only nodes are
    /// neighbors.
    pub proof fn lemma_adjacent_are_nodes(&self, x: usize, y: usize)
        requires
            self.adjacent(x, y),
        ensures
            self.has_node(x),
            self.wf() ==> self.has_node(y),
    {
    }

    /// A graph has finitely many nodes.
    pub proof fn lemma_nodes_finite(&self)
        ensures
            self.nodes().finite(),
    {
        assert(self.nodes() =~= self.0@.dom());
    }

    /// The graph without nodes.
    pub fn new() -> (g: Graph)
        ensures
            g.wf(),
            forall|x: usize| !g.has_node(x),
            forall|x: usize, y: usize| !g.adjacent(x, y),
    {
        Graph(BTreeMap::new())
    }

    /// The neighbors of `x`, if `x` is a node.
    pub fn neighbors(&self, x: usize) -> (r: Option<&BTreeSet<usize>>)
        ensures
            r is Some <==> self.has_node(x),
            r matches Some(set) ==> set@ == self.neighbors_of(x),
    {
        self.0.get(&x)
    }

    /// The nodes of the graph, each once.
    pub fn node_ids(&self) -> (ids: Vec<usize>)
        ensures
            ids@.no_duplicates(),
            forall|x: usize| #[trigger] ids@.contains(x) <==> self.has_node(x),
    {
        let mut ids: Vec<usize> = Vec::new();
        for x in it: self.0.keys()
            invariant
                ids@.len() == it.index(),
                forall|j: int| 0 <= j < ids@.len() ==> ids@[j] == *it.seq()[j],
                it.seq().unref().to_set() == self.0@.dom(),
                it.seq().no_duplicates(),
                it.index() == it.seq().len() ==> ids@ =~= it.seq().unref(),
        {
            ids.push(*x);
        }
        ids
    }

    /// Records `y` as a neighbor of `x` in `adj`, making `x` a node.
    fn add_directed_edge(adj: &mut BTreeMap<usize, BTreeSet<usize>>, x: usize, y: usize)
        ensures
            forall|a: usize| final(adj)@.contains_key(a) <==> old(adj)@.contains_key(a) || a == x,
            forall|a: usize, b: usize|
                listed(final(adj)@, a, b) <==> listed(old(adj)@, a, b) || (a == x && b == y),
    {
        let mut set = match adj.remove(&x) {
            Some(s) => s,
            None => BTreeSet::new(),
        };
        set.insert(y);
        adj.insert(x, set);
    }

    /// Connects `x` and `y`, in both directions.
    pub fn add_edge(&mut self, x: usize, y: usize)
        ensures
            forall|a: usize| final(self).has_node(a) <==> old(self).has_node(a) || a == x || a == y,
            forall|a: usize, b: usize|
                final(self).adjacent(a, b) <==> old(self).adjacent(a, b) || (a == x && b == y) || (a
                    == y && b == x),
            final(self).wf(),
    {
        proof {
            use_type_invariant(&*self);
        }
        let ghost before = self.0@;
        // The map leaves the graph while it holds the edge in one direction
        // only.
        let mut adj: BTreeMap<usize, BTreeSet<usize>> = BTreeMap::new();
        core::mem::swap(&mut self.0, &mut adj);
        Self::add_directed_edge(&mut adj, x, y);
        Self::add_directed_edge(&mut adj, y, x);
        proof {
            assert forall|a: usize, b: usize| listed(adj@, a, b) <==> listed(adj@, b, a) by {
                assert(old(self).adjacent(b, a) <==> listed(before, b, a));
            }
        }
        self.0 = adj;
    }
}

impl Graph {
    /// Whether the graph is the king-move grid of the given dimensions: its
    /// edges are the king moves, and its nodes the cells that have a neighbor.
    pub open spec fn is_grid(&self, width: int, height: int) -> bool {
        &&& forall|a: usize, b: usize|
            self.adjacent(a, b) <==> king_adjacent(width, height, a as int, b as int)
        &&& forall|a: usize| self.has_node(a) <==> a < width * height && 1 < width * height
    }

    /// Builds the king-move grid of `width` columns and `height` rows.
    ///
    /// Each cell, taken in row-major order, is connected to the cell on its
    /// right, below it, below it to the right and below it to the left, as far
    /// as they exist. A grid without cells, or with a single cell, has no
    /// nodes.
    pub fn grid(width: usize, height: usize) -> (g: Graph)
        requires
            width * height <= usize::MAX,
        ensures
            g.wf(),
            g.is_grid(width as int, height as int),
    {
        let mut graph = Graph::new();
        if width == 0 || height == 0 {
            assert(width * height == 0) by (nonlinear_arith)
                requires
                    width == 0 || height == 0,
            ;
            return graph;
        }
        let total: usize = width * height;
        let mut n: usize = 0;
        while n < total
            invariant
                0 < width,
                0 < height,
                total == width * height,
                n <= total,
                graph.wf(),
                forall|a: usize| graph.has_node(a) ==> a < total && 1 < total,
                forall|a: usize, b: usize|
                    graph.adjacent(a, b) <==> king_adjacent(
                        width as int,
                        height as int,
                        a as int,
                        b as int,
                    ) && (a < n || b < n),
            decreases total - n,
        {
            let right = n % width + 1 < width;
            let down = n / width + 1 < height;
            let left = n % width != 0;
            proof {
                lemma_cell_in_grid(width as int, height as int, n as int);
                assert forall|b: int|
                    n < b && #[trigger] king_adjacent(
                        width as int,
                        height as int,
                        n as int,
                        b,
                    ) implies b <= n + 1 + width by {
                    lemma_forward_neighbors(width as int, height as int, n as int, b);
                }
                lemma_forward_neighbors(width as int, height as int, n as int, n + 1);
                lemma_forward_neighbors(width as int, height as int, n as int, n + 1 + width);
                lemma_forward_neighbors(width as int, height as int, n as int, n + width);
                lemma_forward_neighbors(width as int, height as int, n as int, n - 1 + width);
            }
            if right {
                graph.add_edge(n, n + 1);
            }
            if right && down {
                graph.add_edge(n, n + 1 + width);
            }
            if down {
                graph.add_edge(n, n + width);
            }
            if down && left {
                graph.add_edge(n, n - 1 + width);
            }
            proof {
                assert forall|a: usize, b: usize|
                    graph.adjacent(a, b) <==> king_adjacent(
                        width as int,
                        height as int,
                        a as int,
                        b as int,
                    ) && (a < n + 1 || b < n + 1) by {
                    lemma_forward_neighbors(width as int, height as int, n as int, b as int);
                    lemma_forward_neighbors(width as int, height as int, n as int, a as int);
                }
            }
            n += 1;
        }
        proof {
            assert forall|a: usize| a < total && 1 < total implies graph.has_node(a) by {
                let b = lemma_has_neighbor(width as int, height as int, a as int);
                assert(graph.adjacent(a, b as usize));
            }
        }
        graph
    }
}

impl Graph {
    /// In a grid of at least three rows and three columns, a cell that lies on
    /// no border has eight neighbors, a cell on one border has five, and a
    /// corner cell has three.
    pub proof fn lemma_neighbor_count(&self, width: int, height: int, a: usize)
        requires
            self.is_grid(width, height),
            3 <= width,
            3 <= height,
            a < width * height <= usize::MAX,
        ensures
            ({
                let row = (a as int) / width;
                let col = (a as int) % width;
                let on_row_border = row == 0 || row == height - 1;
                let on_col_border = col == 0 || col == width - 1;
                let count = self.neighbors_of(a).len();
                &&& self.neighbors_of(a).finite()
                &&& !on_row_border && !on_col_border ==> count == 8
                &&& on_row_border != on_col_border ==> count == 5
                &&& on_row_border && on_col_border ==> count == 3
            }),
    {
        let w = width;
        let h = height;
        let n = a as int;
        lemma_cell_in_grid(w, h, n);
        let right = n % w + 1 < w;
        let left = n % w != 0;
        let down = n / w + 1 < h;
        let up = n / w != 0;
        lemma_king_neighbors(w, h, n, n + 1);
        lemma_king_neighbors(w, h, n, n - 1);
        lemma_king_neighbors(w, h, n, n + w);
        lemma_king_neighbors(w, h, n, n - w);
        lemma_king_neighbors(w, h, n, n + w + 1);
        lemma_king_neighbors(w, h, n, n + w - 1);
        lemma_king_neighbors(w, h, n, n - w + 1);
        lemma_king_neighbors(w, h, n, n - w - 1);
        let e = Set::<usize>::empty();
        let s1 = if right { e.insert((n + 1) as usize) } else { e };
        let s2 = if left { s1.insert((n - 1) as usize) } else { s1 };
        let s3 = if down { s2.insert((n + w) as usize) } else { s2 };
        let s4 = if up { s3.insert((n - w) as usize) } else { s3 };
        let s5 = if down && right { s4.insert((n + w + 1) as usize) } else { s4 };
        let s6 = if down && left { s5.insert((n + w - 1) as usize) } else { s5 };
        let s7 = if up && right { s6.insert((n - w + 1) as usize) } else { s6 };
        let s8 = if up && left { s7.insert((n - w - 1) as usize) } else { s7 };
        assert forall|b: usize| self.neighbors_of(a).contains(b) <==> s8.contains(b) by {
            assert(self.adjacent(a, b) <==> king_adjacent(w, h, n, b as int));
            lemma_king_neighbors(w, h, n, b as int);
        }
        assert(self.neighbors_of(a) =~= s8);
    }
}

/// In a grid of at least two cells every cell has a neighbor.
pub proof fn lemma_has_neighbor(w: int, h: int, a: int) -> (b: int)
    requires
        0 < w,
        0 < h,
        1 < w * h,
        0 <= a < w * h,
    ensures
        king_adjacent(w, h, a, b),
{
    lemma_cell_in_grid(w, h, a);
    let r = a / w;
    let c = a % w;
    if c + 1 < w {
        lemma_forward_neighbors(w, h, a, a + 1);
        a + 1
    } else if c > 0 {
        lemma_cell_coordinates(w, r, c - 1);
        a - 1
    } else if r + 1 < h {
        lemma_forward_neighbors(w, h, a, a + w);
        a + w
    } else {
        assert(r > 0) by (nonlinear_arith)
            requires
                1 < w * h,
                w == 1,
                r + 1 >= h,
        ;
        lemma_cell_coordinates(w, r - 1, c);
        a - w
    }
}

} // verus!
