//! The letter board: a graph of cells, a character on each cell, and the
//! search for the words of a dictionary along paths of the graph.

use crate::dict::Dict;
use crate::graph::Graph;
use crate::text::split_tokens;
use crate::text::tokens;
use crate::text::views;
use std::collections::BTreeMap;
use std::collections::BTreeSet;
use std::str::FromStr;
use vstd::prelude::*;

verus! {

/// A sequence of cell ids: the cells of a word found on the board, in order.
pub type Path = Vec<usize>;

/// Why a text is no board.
#[derive(Debug, Clone, Copy, PartialEq, Eq)]
pub enum BoardError {
    /// The text has fewer than two rows.
    TooFewRows,
    /// The rows differ in length.
    UnevenRows,
    /// The rows have fewer than two characters.
    TooNarrow,
}

impl BoardError {
    /// The words that describe the fault.
    pub open spec fn description(&self) -> Seq<char> {
        match self {
            BoardError::TooFewRows => "must have at least two rows"@,
            BoardError::UnevenRows => "all rows must be the same width"@,
            BoardError::TooNarrow => "must have at least two columns"@,
        }
    }

    /// A message that describes the fault to a reader.
    pub fn message(&self) -> (text: &'static str)
        ensures
            text@ == self.description(),
    {
        match self {
            BoardError::TooFewRows => "must have at least two rows",
            BoardError::UnevenRows => "all rows must be the same width",
            BoardError::TooNarrow => "must have at least two columns",
        }
    }
}

/// The first fault of `rows` as the rows of a board, if they have one.
pub open spec fn rows_error(rows: Seq<Seq<char>>) -> Option<BoardError> {
    if rows.len() < 2 {
        Some(BoardError::TooFewRows)
    } else if exists|i: int| 0 <= i < rows.len() && (#[trigger] rows[i]).len() != rows[0].len() {
        Some(BoardError::UnevenRows)
    } else if rows[0].len() < 2 {
        Some(BoardError::TooNarrow)
    } else {
        None
    }
}

/// A rectangular board of letters.
///
/// The cells are the nodes of `grid`, and `chars` gives each of them its
/// character.
#[derive(Debug, PartialEq)]
pub struct Board {
    grid: Graph,
    chars: BTreeMap<usize, char>,
}

impl Board {
    /// The graph of the board's cells.
    pub closed spec fn graph(&self) -> Graph {
        self.grid
    }

    /// The character on cell `id`, if the board has that cell.
    pub closed spec fn char_at(&self, id: usize) -> Option<char> {
        if self.chars@.contains_key(id) {
            Some(self.chars@[id])
        } else {
            None
        }
    }

    /// A board is well formed when its graph is, and when exactly the nodes
    /// of the graph carry a character. Every board is.
    #[verifier::type_invariant]
    pub open spec fn wf(&self) -> bool {
        &&& self.graph().wf()
        &&& forall|id: usize| self.char_at(id) is Some <==> self.graph().has_node(id)
    }

    /// Whether the board shows `rows`: its graph is the king-move grid of
    /// their dimensions, and its cells, numbered from 0 row by row, carry
    /// their characters.
    pub open spec fn shows(&self, rows: Seq<Seq<char>>) -> bool {
        let height = rows.len() as int;
        let width = rows[0].len() as int;
        &&& self.graph().is_grid(width, height)
        &&& forall|i: int, j: int|
            0 <= i < height && 0 <= j < width ==> self.char_at((i * width + j) as usize) == Some(
                #[trigger] rows[i][j],
            )
    }

    /// The character that stands for cell `id` in a word: the character on
    /// the cell, or `'?'` where the board has no such cell.
    pub open spec fn letter(&self, id: usize) -> char {
        match self.char_at(id) {
            Some(c) => c,
            None => '?',
        }
    }

    /// The word that `path` spells: the letters of its cells, in order.
    pub open spec fn word_of(&self, path: Seq<usize>) -> Seq<char> {
        Seq::new(path.len(), |i: int| self.letter(path[i]))
    }

    /// Whether cell `i` of `path` and the cell after it are adjacent.
    pub open spec fn linked(&self, path: Seq<usize>, i: int) -> bool {
        self.graph().adjacent(path[i], path[i + 1])
    }

    /// Whether `path` is a path on the board: it has a cell, its cells are
    /// cells of the board, none of them occurs twice, and each is adjacent to
    /// the one before it.
    pub open spec fn is_path(&self, path: Seq<usize>) -> bool {
        &&& path.len() > 0
        &&& path.no_duplicates()
        &&& self.graph().has_node(path[0])
        &&& forall|i: int| 0 <= i < path.len() - 1 ==> #[trigger] self.linked(path, i)
    }

    /// Whether `path` is a path on the board that spells a word of `dict`.
    pub open spec fn is_match(&self, dict: &Dict, path: Seq<usize>) -> bool {
        self.is_path(path) && dict.contains(self.word_of(path))
    }

    /// Whether `found` lists the paths that spell a word of `dict`: each of
    /// them once, and nothing else.
    pub open spec fn is_search_result(&self, dict: &Dict, found: Seq<Seq<usize>>) -> bool {
        &&& found.no_duplicates()
        &&& forall|path: Seq<usize>| found.contains(path) <==> self.is_match(dict, path)
    }

    /// Every cell of a path is a cell of the board.
    pub proof fn lemma_path_cells(&self, path: Seq<usize>, i: int)
        requires
            self.graph().wf(),
            self.is_path(path),
            0 <= i < path.len(),
        ensures
            self.graph().has_node(path[i]),
    {
        if i > 0 {
            assert(self.linked(path, i - 1));
            self.graph().lemma_adjacent_are_nodes(path[i - 1], path[i]);
        }
    }

    /// A path is no longer than the board has cells.
    pub proof fn lemma_path_len(&self, path: Seq<usize>)
        requires
            self.graph().wf(),
            self.is_path(path),
        ensures
            path.len() <= self.graph().nodes().len(),
    {
        let nodes = self.graph().nodes();
        self.graph().lemma_nodes_finite();
        assert forall|x: usize| path.to_set().contains(x) implies nodes.contains(x) by {
            let i = choose|i: int| 0 <= i < path.len() && path[i] == x;
            self.lemma_path_cells(path, i);
        }
        path.unique_seq_to_set();
        vstd::set_lib::lemma_len_subset(path.to_set(), nodes);
    }

    /// A path that is extended by a neighbor of its last cell which it does
    /// not hold yet is a path.
    proof fn lemma_extend_path(&self, path: Seq<usize>, next: usize)
        requires
            self.is_path(path),
            self.graph().adjacent(path.last(), next),
            !path.contains(next),
        ensures
            self.is_path(path.push(next)),
    {
        let longer = path.push(next);
        assert forall|i: int| 0 <= i < longer.len() - 1 implies #[trigger] self.linked(
            longer,
            i,
        ) by {
            if i < path.len() - 1 {
                assert(self.linked(path, i));
            }
        }
    }

    /// The neighbors of `pos` that `path` does not hold, each once.
    fn open_moves(&self, path: &Path, pos: usize) -> (moves: Vec<usize>)
        requires
            self.graph().has_node(pos),
        ensures
            moves@.no_duplicates(),
            forall|x: usize|
                #[trigger] moves@.contains(x) <==> self.graph().adjacent(pos, x) && !path@.contains(
                    x,
                ),
    {
        let mut open: BTreeSet<usize> = self.grid.neighbors(pos).unwrap().clone();
        let mut i: usize = 0;
        while i < path.len()
            invariant
                i <= path@.len(),
                forall|x: usize|
                    open@.contains(x) <==> self.graph().adjacent(pos, x) && !path@.take(
                        i as int,
                    ).contains(x),
            decreases path@.len() - i,
        {
            let ghost before = path@.take(i as int);
            open.remove(&path[i]);
            proof {
                let now = path@.take(i as int + 1);
                assert forall|x: usize| now.contains(x) <==> before.contains(x) || x
                    == path@[i as int] by {
                    if x == path@[i as int] {
                        assert(now[i as int] == x);
                    }
                }
            }
            i += 1;
        }
        assert(path@.take(path@.len() as int) =~= path@);
        let mut moves: Vec<usize> = Vec::new();
        for x in it: open.iter()
            invariant
                moves@.len() == it.index(),
                forall|j: int| 0 <= j < moves@.len() ==> moves@[j] == *it.seq()[j],
                it.seq().unref().to_set() == open@,
                it.seq().no_duplicates(),
                it.index() == it.seq().len() ==> moves@ =~= it.seq().unref(),
                it.index() == it.seq().len() ==> moves@.to_set() == open@,
        {
            moves.push(*x);
            assert(it.index() + 1 == it.seq().len() ==> moves@ =~= it.seq().unref());
        }
        assert forall|x: usize| moves@.contains(x) <==> open@.contains(x) by {}
        moves
    }

    /// Whether `path` goes on from the cells of `stem` and then `pos`, and the
    /// letters of its cells from `pos` on spell a word of `dict`.
    spec fn continues(&self, dict: &Dict, stem: Seq<usize>, pos: usize, path: Seq<usize>) -> bool {
        &&& self.is_path(path)
        &&& stem.push(pos).is_prefix_of(path)
        &&& dict.contains(self.word_of(path.skip(stem.len() as int)))
    }

    /// Whether `path` continues from `stem` through one of the cells `tried`.
    spec fn continues_via(
        &self,
        dict: &Dict,
        stem: Seq<usize>,
        tried: Seq<usize>,
        path: Seq<usize>,
    ) -> bool {
        exists|j: int| 0 <= j < tried.len() && self.continues(dict, stem, #[trigger] tried[j], path)
    }

    /// A path that continues from `stem` through `pos` is longer than `stem`
    /// and has `pos` behind the cells of `stem`.
    proof fn lemma_continues_at(
        &self,
        dict: &Dict,
        stem: Seq<usize>,
        pos: usize,
        path: Seq<usize>,
    )
        requires
            self.continues(dict, stem, pos, path),
        ensures
            path.len() > stem.len(),
            path[stem.len() as int] == pos,
            stem.is_prefix_of(path),
    {
        let n = stem.len() as int;
        let base = stem.push(pos);
        assert(path.subrange(0, n + 1)[n] == base[n]);
        assert(stem =~= path.subrange(0, n)) by {
            assert forall|i: int| 0 <= i < n implies stem[i] == path[i] by {
                assert(path.subrange(0, n + 1)[i] == base[i]);
            }
        }
    }

    /// Where `dict` has no child for the letter on `pos`, no path continues
    /// through `pos`.
    proof fn lemma_step_pruned(&self, dict: &Dict, stem: Seq<usize>, pos: usize, path: Seq<usize>)
        requires
            dict.child_at(self.letter(pos)) is None,
        ensures
            !self.continues(dict, stem, pos, path),
    {
        if self.continues(dict, stem, pos, path) {
            let n = stem.len() as int;
            self.lemma_continues_at(dict, stem, pos, path);
            let rest = self.word_of(path.skip(n + 1));
            dict.lemma_child_words(self.letter(pos), rest);
        }
    }

    /// Where `child` is the child of `dict` for the letter on `pos`, a path
    /// continues through `pos` exactly if it ends on `pos` and `child` ends a
    /// word, or goes on to a neighbor of `pos` that is new to it and
    /// continues through that neighbor with `child` as its dictionary.
    proof fn lemma_step_split(
        &self,
        dict: &Dict,
        child: &Dict,
        stem: Seq<usize>,
        pos: usize,
        path: Seq<usize>,
    )
        requires
            dict.child_at(self.letter(pos)) == Some(*child),
            self.is_path(stem.push(pos)),
        ensures
            self.continues(dict, stem, pos, path) <==> {
                let base = stem.push(pos);
                ||| (path == base && child.ends_word())
                ||| (path.len() > base.len() && self.graph().adjacent(pos, path[base.len() as int])
                    && !base.contains(path[base.len() as int]) && self.continues(
                    child,
                    base,
                    path[base.len() as int],
                    path,
                ))
            },
    {
        let base = stem.push(pos);
        let n = base.len() as int;
        let letter = self.letter(pos);
        let rest = self.word_of(path.skip(n));
        dict.lemma_child_words(letter, rest);
        if self.continues(dict, stem, pos, path) {
            self.lemma_continues_at(dict, stem, pos, path);
            assert(self.word_of(path.skip(n - 1)) =~= seq![letter] + rest);
            if path.len() == n {
                assert(path =~= base);
            } else {
                assert(self.linked(path, n - 1));
            }
        }
        if path == base && child.ends_word() {
            assert(self.word_of(path.skip(n - 1)) =~= seq![letter] + rest);
        }
        if path.len() > n && self.continues(child, base, path[n], path) {
            self.lemma_continues_at(child, base, path[n], path);
            assert(path.subrange(0, n)[n - 1] == base[n - 1]);
            assert(self.word_of(path.skip(n - 1)) =~= seq![letter] + rest);
        }
    }

    /// The paths that go on from `path` and then `pos` and spell, from `pos`
    /// on, a word of `dict`: each of them once.
    ///
    /// Where `dict` has no child for the letter on `pos`, there is none.
    /// Else they are those found from each neighbor of `pos` that the path
    /// does not hold yet, with the child as dictionary, and the path up to
    /// `pos` itself where the child ends a word.
    fn search_step(&self, dict: &Dict, path: &Path, pos: usize) -> (found: Vec<Path>)
        requires
            self.wf(),
            self.is_path(path@.push(pos)),
        ensures
            views(found@).no_duplicates(),
            forall|q: Seq<usize>|
                #[trigger] views(found@).contains(q) <==> self.continues(dict, path@, pos, q),
        decreases self.graph().nodes().len() - path@.len(),
    {
        let ghost stem = path@;
        let ghost base = stem.push(pos);
        proof {
            self.lemma_path_cells(base, base.len() - 1);
            self.lemma_path_len(base);
        }
        let c = *self.chars.get(&pos).unwrap();
        match dict.child(c) {
            None => {
                let found: Vec<Path> = Vec::new();
                proof {
                    assert forall|q: Seq<usize>| !self.continues(dict, stem, pos, q) by {
                        self.lemma_step_pruned(dict, stem, pos, q);
                    }
                }
                found
            },
            Some(dict_here) => {
                let mut path_here = path.clone();
                path_here.push(pos);
                let moves = self.open_moves(&path_here, pos);
                let mut results: Vec<Path> = Vec::new();
                let mut k: usize = 0;
                while k < moves.len()
                    invariant
                        self.wf(),
                        self.is_path(base),
                        base == stem.push(pos),
                        stem == path@,
                        path_here@ == base,
                        base.len() <= self.graph().nodes().len(),
                        k <= moves@.len(),
                        moves@.no_duplicates(),
                        forall|x: usize|
                            #[trigger] moves@.contains(x) <==> self.graph().adjacent(pos, x)
                                && !base.contains(x),
                        views(results@).no_duplicates(),
                        forall|q: Seq<usize>|
                            #[trigger] views(results@).contains(q) <==> self.continues_via(
                                dict_here,
                                base,
                                moves@.take(k as int),
                                q,
                            ),
                    decreases moves@.len() - k,
                {
                    let next = moves[k];
                    proof {
                        assert(moves@.contains(next));
                        self.lemma_extend_path(base, next);
                    }
                    let mut sub = self.search_step(dict_here, &path_here, next);
                    let ghost before = views(results@);
                    let ghost added = views(sub@);
                    results.append(&mut sub);
                    proof {
                        assert(views(results@) =~= before + added);
                        self.lemma_next_step(dict_here, base, moves@, k as int, before, added);
                    }
                    k += 1;
                }
                assert(moves@.take(k as int) =~= moves@);
                let ghost onward = views(results@);
                if dict_here.is_word_end() {
                    results.push(path_here);
                    proof {
                        assert(views(results@) =~= onward + seq![base]);
                        lemma_concat_contains(onward, seq![base]);
                        assert(seq![base][0] == base);
                        assert forall|i: int, j: int|
                            0 <= i < onward.len() && 0 <= j < 1 implies onward[i] != seq![
                                base,
                            ][j] by {
                            assert(onward.contains(onward[i]));
                            if onward[i] == base {
                                self.lemma_via_moves(dict_here, base, pos, moves@, base);
                            }
                        }
                        vstd::seq_lib::lemma_no_dup_in_concat(onward, seq![base]);
                    }
                }
                proof {
                    assert forall|q: Seq<usize>|
                        views(results@).contains(q) <==> self.continues(dict, stem, pos, q) by {
                        self.lemma_step_split(dict, dict_here, stem, pos, q);
                        self.lemma_via_moves(dict_here, base, pos, moves@, q);
                        assert(onward.contains(q) <==> self.continues_via(
                            dict_here,
                            base,
                            moves@,
                            q,
                        ));
                        if dict_here.ends_word() {
                            assert(views(results@).contains(q) <==> onward.contains(q) || q
                                == base);
                        }
                    }
                }
                results
            },
        }
    }

    /// Where `moves` are the neighbors of `pos` that `base` does not hold, a
    /// path continues from `base` through one of them exactly if it is
    /// longer than `base`, its next cell is such a neighbor, and it continues
    /// through that cell.
    proof fn lemma_via_moves(
        &self,
        dict: &Dict,
        base: Seq<usize>,
        pos: usize,
        moves: Seq<usize>,
        path: Seq<usize>,
    )
        requires
            forall|x: usize|
                #[trigger] moves.contains(x) <==> self.graph().adjacent(pos, x) && !base.contains(
                    x,
                ),
        ensures
            self.continues_via(dict, base, moves, path) <==> {
                &&& path.len() > base.len()
                &&& self.graph().adjacent(pos, path[base.len() as int])
                &&& !base.contains(path[base.len() as int])
                &&& self.continues(dict, base, path[base.len() as int], path)
            },
    {
        let n = base.len() as int;
        if self.continues_via(dict, base, moves, path) {
            let j = choose|j: int|
                0 <= j < moves.len() && self.continues(dict, base, #[trigger] moves[j], path);
            self.lemma_continues_at(dict, base, moves[j], path);
            assert(moves.contains(moves[j]));
        }
        if path.len() > n && self.graph().adjacent(pos, path[n]) && !base.contains(path[n])
            && self.continues(dict, base, path[n], path) {
            assert(moves.contains(path[n]));
        }
    }

    /// What the search from one more neighbor adds: where `before` lists the
    /// paths that continue through the first `k` of `moves`, and `added`
    /// those that continue through the next of them, the two together list
    /// the paths that continue through the first `k + 1`, each once.
    proof fn lemma_next_step(
        &self,
        dict: &Dict,
        base: Seq<usize>,
        moves: Seq<usize>,
        k: int,
        before: Seq<Seq<usize>>,
        added: Seq<Seq<usize>>,
    )
        requires
            0 <= k < moves.len(),
            moves.no_duplicates(),
            before.no_duplicates(),
            added.no_duplicates(),
            forall|q: Seq<usize>|
                #[trigger] before.contains(q) <==> self.continues_via(dict, base, moves.take(k), q),
            forall|q: Seq<usize>|
                #[trigger] added.contains(q) <==> self.continues(dict, base, moves[k], q),
        ensures
            (before + added).no_duplicates(),
            forall|q: Seq<usize>|
                #[trigger] (before + added).contains(q) <==> self.continues_via(
                    dict,
                    base,
                    moves.take(k + 1),
                    q,
                ),
    {
        let tried = moves.take(k);
        let now = moves.take(k + 1);
        assert forall|i: int, j: int|
            0 <= i < before.len() && 0 <= j < added.len() implies before[i] != added[j] by {
            assert(before.contains(before[i]));
            assert(added.contains(added[j]));
            if before[i] == added[j] {
                let q = before[i];
                let m = choose|m: int|
                    0 <= m < tried.len() && self.continues(dict, base, #[trigger] tried[m], q);
                self.lemma_continues_at(dict, base, tried[m], q);
                self.lemma_continues_at(dict, base, moves[k], q);
            }
        }
        vstd::seq_lib::lemma_no_dup_in_concat(before, added);
        lemma_concat_contains(before, added);
        assert forall|q: Seq<usize>|
            #[trigger] (before + added).contains(q) <==> self.continues_via(dict, base, now, q) by {
            if self.continues(dict, base, moves[k], q) {
                assert(self.continues(dict, base, now[k], q));
            }
        }
    }

    /// The board of the given graph and characters, where exactly the nodes
    /// of the graph are given a character; else nothing.
    pub fn from_parts(grid: Graph, chars: BTreeMap<usize, char>) -> (r: Option<Board>)
        ensures
            r is Some <==> (forall|id: usize| chars@.contains_key(id) <==> grid.has_node(id)),
            r matches Some(board) ==> {
                &&& board.wf()
                &&& board.graph() == grid
                &&& forall|id: usize|
                    board.char_at(id) == (if chars@.contains_key(id) {
                        Some(chars@[id])
                    } else {
                        None
                    })
            },
    {
        let ids = grid.node_ids();
        proof {
            use_type_invariant(&grid);
            ids@.unique_seq_to_set();
            if forall|id: usize| chars@.contains_key(id) <==> grid.has_node(id) {
                assert(ids@.to_set() =~= chars@.dom());
            }
        }
        if ids.len() != chars.len() {
            return None;
        }
        let mut k: usize = 0;
        while k < ids.len()
            invariant
                k <= ids@.len(),
                forall|x: usize| #[trigger] ids@.contains(x) <==> grid.has_node(x),
                forall|j: int| 0 <= j < k ==> chars@.contains_key(#[trigger] ids@[j]),
            decreases ids@.len() - k,
        {
            if !chars.contains_key(&ids[k]) {
                assert(ids@.contains(ids@[k as int]));
                return None;
            }
            k += 1;
        }
        proof {
            vstd::set_lib::lemma_subset_equality(ids@.to_set(), chars@.dom());
        }
        Some(Board { grid, chars })
    }

    /// Finds every path on the board that spells a word of `dict`.
    ///
    /// The result holds each such path once, and nothing else: each of its
    /// paths visits no cell twice, steps only between adjacent cells, and
    /// spells a word of `dict`. Two paths that spell the same word are both
    /// in the result.
    pub fn search(&self, dict: &Dict) -> (found: Vec<Path>)
        ensures
            self.is_search_result(dict, views(found@)),
            forall|i: int| 0 <= i < found@.len() ==> self.is_path(#[trigger] found@[i]@),
            forall|i: int|
                0 <= i < found@.len() ==> dict.contains(self.word_of(#[trigger] found@[i]@)),
    {
        proof {
            use_type_invariant(self);
        }
        let path: Path = Vec::new();
        let starts = self.grid.node_ids();
        let mut results: Vec<Path> = Vec::new();
        let mut k: usize = 0;
        let ghost stem = Seq::<usize>::empty();
        while k < starts.len()
            invariant
                self.wf(),
                path@ == stem,
                stem.len() == 0,
                k <= starts@.len(),
                starts@.no_duplicates(),
                forall|x: usize| #[trigger] starts@.contains(x) <==> self.graph().has_node(x),
                views(results@).no_duplicates(),
                forall|q: Seq<usize>|
                    #[trigger] views(results@).contains(q) <==> self.continues_via(
                        dict,
                        stem,
                        starts@.take(k as int),
                        q,
                    ),
            decreases starts@.len() - k,
        {
            let pos = starts[k];
            proof {
                assert(starts@.contains(starts@[k as int]));
            }
            let mut sub = self.search_step(dict, &path, pos);
            let ghost before = views(results@);
            let ghost added = views(sub@);
            results.append(&mut sub);
            proof {
                assert(views(results@) =~= before + added);
                self.lemma_next_step(dict, stem, starts@, k as int, before, added);
            }
            k += 1;
        }
        proof {
            assert(starts@.take(k as int) =~= starts@);
            assert forall|q: Seq<usize>| #[trigger]
                views(results@).contains(q) <==> self.is_match(dict, q) by {
                assert(q.skip(0) =~= q);
                if self.is_match(dict, q) {
                    assert(starts@.contains(q[0]));
                }
            }
            assert forall|i: int| 0 <= i < results@.len() implies self.is_match(
                dict,
                #[trigger] results@[i]@,
            ) by {
                assert(views(results@)[i] == results@[i]@);
                assert(views(results@).contains(results@[i]@));
            }
        }
        results
    }

    /// Spells the word of `path`: the character on each of its cells, in
    /// order, with `'?'` for an id that is no cell of the board.
    pub fn path_to_word(&self, path: &Path) -> (word: String)
        ensures
            word@ == self.word_of(path@),
    {
        let mut word = String::new();
        let mut i: usize = 0;
        while i < path.len()
            invariant
                i <= path@.len(),
                word@ == self.word_of(path@.take(i as int)),
            decreases path@.len() - i,
        {
            let c = match self.chars.get(&path[i]) {
                Some(c) => *c,
                None => '?',
            };
            word.push(c);
            proof {
                assert(self.word_of(path@.take(i as int + 1)) =~= self.word_of(
                    path@.take(i as int),
                ).push(c));
            }
            i += 1;
        }
        word
    }
}

impl Board {
    /// A search with a dictionary that holds no word finds nothing.
    pub proof fn lemma_no_words_no_paths(&self, dict: &Dict, found: Seq<Seq<usize>>)
        requires
            dict.is_empty(),
            self.is_search_result(dict, found),
        ensures
            found.len() == 0,
    {
        if found.len() > 0 {
            assert(found.contains(found[0]));
            dict.lemma_empty_holds_nothing(self.word_of(found[0]));
        }
    }

    /// Two searches of one board with one dictionary find the same paths:
    /// their results hold the same paths, and as many.
    pub proof fn lemma_searches_agree(
        &self,
        dict: &Dict,
        first: Seq<Seq<usize>>,
        second: Seq<Seq<usize>>,
    )
        requires
            self.is_search_result(dict, first),
            self.is_search_result(dict, second),
        ensures
            first.to_set() == second.to_set(),
            first.len() == second.len(),
    {
        first.unique_seq_to_set();
        second.unique_seq_to_set();
    }

    /// Every path that a search finds is a path on the board: none of its
    /// cells occurs twice in it, and each two cells that follow one another
    /// in it are adjacent in the board's graph.
    pub proof fn lemma_found_paths_are_valid(
        &self,
        dict: &Dict,
        found: Seq<Seq<usize>>,
        k: int,
    )
        requires
            self.is_search_result(dict, found),
            0 <= k < found.len(),
        ensures
            found[k].no_duplicates(),
            forall|i: int|
                0 <= i < found[k].len() - 1 ==> self.graph().adjacent(
                    #[trigger] found[k][i],
                    found[k][i + 1],
                ),
    {
        let path = found[k];
        assert(found.contains(path));
        assert forall|i: int| 0 <= i < path.len() - 1 implies self.graph().adjacent(
            #[trigger] path[i],
            path[i + 1],
        ) by {
            assert(self.linked(path, i));
        }
    }

    /// Every path that a search finds spells a word of the dictionary: where
    /// the dictionary holds exactly the words of a list, a word of that list.
    pub proof fn lemma_found_words_are_listed(
        &self,
        dict: &Dict,
        words: Seq<&str>,
        found: Seq<Seq<usize>>,
        k: int,
    )
        requires
            forall|w: Seq<char>| dict.contains(w) <==> crate::dict::listed_word(words, w),
            self.is_search_result(dict, found),
            0 <= k < found.len(),
        ensures
            dict.contains(self.word_of(found[k])),
            crate::dict::listed_word(words, self.word_of(found[k])),
    {
        assert(found.contains(found[k]));
    }
}

/// A concatenation holds what either part holds.
proof fn lemma_concat_contains<T>(a: Seq<T>, b: Seq<T>)
    ensures
        forall|x: T| #[trigger] (a + b).contains(x) <==> a.contains(x) || b.contains(x),
{
    assert forall|x: T| (a + b).contains(x) <==> a.contains(x) || b.contains(x) by {
        if a.contains(x) {
            let i = choose|i: int| 0 <= i < a.len() && a[i] == x;
            assert((a + b)[i] == x);
        }
        if b.contains(x) {
            let i = choose|i: int| 0 <= i < b.len() && b[i] == x;
            assert((a + b)[a.len() + i] == x);
        }
    }
}

/// In row-major order the cell in row `a` and column `b` comes before the
/// cell in a later row `i` and column `j`.
proof fn lemma_cell_order(width: int, a: int, b: int, i: int, j: int)
    requires
        0 <= a < i,
        0 <= b < width,
        0 <= j,
    ensures
        0 <= a * width + b < i * width + j,
{
    assert(a * width + width <= i * width) by (nonlinear_arith)
        requires
            a + 1 <= i,
            0 < width,
    ;
    assert(0 <= a * width) by (nonlinear_arith)
        requires
            0 <= a,
            0 < width,
    ;
}

impl Board {
    /// The board of the given rows.
    ///
    /// It needs at least two rows, all of one length, of at least two
    /// characters. Its cells are numbered from 0, row by row and from left to
    /// right in each row, and each cell is adjacent to the cells beside,
    /// above and below it and to those across its corners.
    pub fn from_rows(rows: &Vec<Vec<char>>) -> (r: Result<Board, BoardError>)
        ensures
            match r {
                Ok(board) => {
                    &&& rows_error(views(rows@)) is None
                    &&& board.wf()
                    &&& board.shows(views(rows@))
                },
                Err(e) => rows_error(views(rows@)) == Some(e),
            },
    {
        let ghost lines = views(rows@);
        let height = rows.len();
        if height < 2 {
            return Err(BoardError::TooFewRows);
        }
        let width = rows[0].len();
        let mut i: usize = 1;
        while i < height
            invariant
                lines == views(rows@),
                height == rows@.len(),
                width == lines[0].len(),
                1 <= i <= height,
                2 <= height,
                forall|k: int| 0 <= k < i ==> (#[trigger] lines[k]).len() == width,
            decreases height - i,
        {
            if rows[i].len() != width {
                assert(lines[i as int].len() != lines[0].len());
                return Err(BoardError::UnevenRows);
            }
            i += 1;
        }
        if width < 2 {
            return Err(BoardError::TooNarrow);
        }
        let mut cells: Vec<char> = Vec::new();
        let mut i: usize = 0;
        while i < height
            invariant
                lines == views(rows@),
                height == rows@.len(),
                forall|k: int| 0 <= k < height ==> (#[trigger] lines[k]).len() == width,
                i <= height,
                cells@.len() == i * width,
                forall|a: int, b: int|
                    0 <= a < i && 0 <= b < width ==> cells@[a * width + b]
                        == #[trigger] lines[a][b],
            decreases height - i,
        {
            let row = &rows[i];
            assert(lines[i as int] == row@);
            let mut j: usize = 0;
            while j < width
                invariant
                    row@ == lines[i as int],
                    row@.len() == width,
                    i < height,
                    j <= width,
                    cells@.len() == i * width + j,
                    forall|a: int, b: int|
                        0 <= a < i && 0 <= b < width ==> cells@[a * width + b]
                            == #[trigger] lines[a][b],
                    forall|b: int| 0 <= b < j ==> cells@[i * width + b] == row@[b],
                decreases width - j,
            {
                cells.push(row[j]);
                proof {
                    assert forall|a: int, b: int| 0 <= a < i && 0 <= b < width implies cells@[a
                        * width + b] == #[trigger] lines[a][b] by {
                        lemma_cell_order(width as int, a, b, i as int, j as int);
                    }
                }
                j += 1;
            }
            proof {
                assert((i + 1) * width == i * width + width) by (nonlinear_arith);
            }
            i += 1;
        }
        let mut chars: BTreeMap<usize, char> = BTreeMap::new();
        let mut id: usize = 0;
        while id < cells.len()
            invariant
                id <= cells@.len(),
                forall|k: usize| chars@.contains_key(k) <==> k < id,
                forall|k: usize| k < id ==> chars@[k] == cells@[k as int],
            decreases cells@.len() - id,
        {
            chars.insert(id, cells[id]);
            id += 1;
        }
        assert(width * height == cells@.len()) by (nonlinear_arith)
            requires
                cells@.len() == height * width,
        ;
        assert(1 < width * height) by (nonlinear_arith)
            requires
                2 <= width,
                2 <= height,
        ;
        let grid = Graph::grid(width, height);
        let board = Board { grid, chars };
        proof {
            assert forall|a: int, b: int| 0 <= a < height && 0 <= b < width implies board.char_at(
                (a * width + b) as usize,
            ) == Some(#[trigger] lines[a][b]) by {
                lemma_cell_order(width as int, a, b, height as int, 0);
            }
        }
        Ok(board)
    }
}

impl FromStr for Board {
    type Err = BoardError;

    /// Reads a board from `text`: the board of its rows, which are the
    /// tokens that stand between white space in it.
    fn from_str(text: &str) -> (r: Result<Self, Self::Err>)
        ensures
            match r {
                Ok(board) => {
                    &&& rows_error(tokens(text@)) is None
                    &&& board.wf()
                    &&& board.shows(tokens(text@))
                },
                Err(e) => rows_error(tokens(text@)) == Some(e),
            },
    {
        let rows = split_tokens(text);
        Board::from_rows(&rows)
    }
}

} // verus!
