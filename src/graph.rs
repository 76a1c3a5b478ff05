//! The lyric graph: a vertex registry with deduplication and a square bit
//! matrix of "is followed by" relations, plus random-walk sentence generation.
use crate::model::{
    dead_end, distinct, is_walk, lemma_register_all, pair_at, register_all, register_one, token_pairs,
    with_edge, Edge, Token,
};
use crate::random::random_below;
use vstd::prelude::*;

verus! {

/// A graph vertex: one word of the lyrics.
pub struct LVert {
    pub value: String,
}

impl LVert {
    /// A vertex holding `val`.
    pub fn new(val: String) -> (r: LVert)
        ensures
            r.value@ == val@,
    {
        LVert { value: val }
    }
}

/// The values of a sequence of vertices.
pub open spec fn tokens_of(ws: Seq<LVert>) -> Seq<Token> {
    ws.map_values(|v: LVert| v.value@)
}

/// A row of `n` zero bits.
fn zero_row(n: usize) -> (r: Vec<u8>)
    ensures
        r@.len() == n,
        forall|j: int| 0 <= j < n ==> r@[j] == 0,
{
    let mut r: Vec<u8> = Vec::new();
    let mut j: usize = 0;
    while j < n
        invariant
            j <= n,
            r@.len() == j,
            forall|k: int| 0 <= k < j ==> r@[k] == 0,
        decreases n - j,
    {
        r.push(0);
        j = j + 1;
    }
    r
}

/// Adds one zero column to every row of a square matrix and one zero row
/// below it.
fn grow_matrix(m: &mut Vec<Vec<u8>>)
    requires
        old(m)@.len() < usize::MAX,
        forall|i: int| 0 <= i < old(m)@.len() ==> #[trigger] old(m)@[i]@.len() == old(m)@.len(),
    ensures
        final(m)@.len() == old(m)@.len() + 1,
        forall|i: int| 0 <= i < final(m)@.len() ==> #[trigger] final(m)@[i]@.len() == final(m)@.len(),
        forall|i: int, j: int|
            0 <= i < final(m)@.len() && 0 <= j < final(m)@.len() ==> #[trigger] final(m)@[i]@[j] == (if i
                < old(m)@.len() && j < old(m)@.len() {
                old(m)@[i]@[j]
            } else {
                0u8
            }),
{
    let n = m.len();
    let mut r: usize = 0;
    while r < n
        invariant
            n == old(m)@.len(),
            n < usize::MAX,
            r <= n,
            m@.len() == n,
            forall|i: int| 0 <= i < r ==> #[trigger] m@[i]@.len() == n + 1,
            forall|i: int| r <= i < n ==> #[trigger] m@[i] == old(m)@[i],
            forall|i: int| 0 <= i < n ==> #[trigger] old(m)@[i]@.len() == n,
            forall|i: int, j: int| 0 <= i < r && 0 <= j < n ==> #[trigger] m@[i]@[j] == old(m)@[i]@[j],
            forall|i: int| 0 <= i < r ==> #[trigger] m@[i]@[n as int] == 0,
        decreases n - r,
    {
        let mut row: Vec<u8> = Vec::new();
        m.set_and_swap(r, &mut row);
        row.push(0);
        m.set_and_swap(r, &mut row);
        r = r + 1;
    }
    m.push(zero_row(n + 1));
    proof {
        assert forall|i: int, j: int| 0 <= i < m@.len() && 0 <= j < m@.len() implies #[trigger] m@[i]@[j] == (
        if i < n && j < n {
            old(m)@[i]@[j]
        } else {
            0u8
        }) by {
            if i < n && j == n {
                assert(m@[i]@[n as int] == 0);
            }
        }
    }
}

/// A directed graph over distinct word values. `matrix[i][j] == 1` means that
/// the vertex at position `i` is directly followed by the vertex at position `j`.
pub struct LGraph {
    matrix: Vec<Vec<u8>>,
    vertices: Vec<LVert>,
    count: usize,
}

impl LGraph {
    /// The registered values, in order of first registration.
    pub closed spec fn values(&self) -> Seq<Token> {
        self.vertices@.map_values(|v: LVert| v.value@)
    }

    spec fn bit(&self, i: int, j: int) -> bool {
        self.matrix@[i]@[j] == 1
    }

    /// The edges, between values.
    pub closed spec fn edges(&self) -> Set<Edge> {
        Set::new(
            |e: Edge|
                exists|i: int, j: int|
                    0 <= i < self.count && 0 <= j < self.count && self.values()[i] == e.0
                        && self.values()[j] == e.1 && #[trigger] self.bit(i, j),
        )
    }

    /// How many of the columns before `n` in row `pos` are set: the number of
    /// successors of the vertex at `pos` that stand before position `n`.
    pub closed spec fn successors_before(&self, pos: int, n: int) -> nat
        decreases n,
    {
        if n <= 0 {
            0
        } else {
            self.successors_before(pos, n - 1) + if self.bit(pos, n - 1) {
                1nat
            } else {
                0nat
            }
        }
    }

    /// The number of rows and columns of the matrix.
    pub closed spec fn capacity(&self) -> nat {
        self.matrix@.len()
    }

    /// The matrix is square with a row for every vertex, entries outside the
    /// registered vertices are clear, and no value is registered twice.
    pub closed spec fn wf(&self) -> bool {
        &&& self.count == self.vertices@.len()
        &&& self.count <= self.matrix@.len()
        &&& forall|i: int| 0 <= i < self.matrix@.len() ==> #[trigger] self.matrix@[i]@.len() == self.matrix@.len()
        &&& forall|i: int, j: int|
            0 <= i < self.matrix@.len() && 0 <= j < self.matrix@.len() && (i >= self.count || j >= self.count)
                ==> !#[trigger] self.bit(i, j)
        &&& distinct(self.values())
    }

    proof fn lemma_bit_edge(&self, i: int, j: int)
        requires
            self.wf(),
            0 <= i < self.count,
            0 <= j < self.count,
        ensures
            self.edges().contains((self.values()[i], self.values()[j])) == self.bit(i, j),
    {
        if self.edges().contains((self.values()[i], self.values()[j])) {
            let (a, b) = choose|a: int, b: int|
                0 <= a < self.count && 0 <= b < self.count && self.values()[a] == self.values()[i]
                    && self.values()[b] == self.values()[j] && #[trigger] self.bit(a, b);
            assert(a == i && b == j);
        }
        if self.bit(i, j) {
            assert(self.edges().contains((self.values()[i], self.values()[j])));
        }
    }

    proof fn lemma_edge_ends(&self, e: Edge)
        requires
            self.wf(),
            self.edges().contains(e),
        ensures
            self.values().contains(e.0),
            self.values().contains(e.1),
    {
        let (a, b) = choose|a: int, b: int|
            0 <= a < self.count && 0 <= b < self.count && self.values()[a] == e.0 && self.values()[b] == e.1
                && #[trigger] self.bit(a, b);
        assert(self.values()[a] == e.0);
        assert(self.values()[b] == e.1);
    }

    proof fn lemma_edges_extend(old_g: &LGraph, new_g: &LGraph)
        requires
            old_g.wf(),
            new_g.wf(),
            old_g.count <= new_g.count,
            forall|i: int| 0 <= i < old_g.count ==> #[trigger] new_g.values()[i] == old_g.values()[i],
            forall|i: int, j: int|
                0 <= i < old_g.count && 0 <= j < old_g.count ==> #[trigger] new_g.bit(i, j) == old_g.bit(i, j),
            forall|i: int, j: int|
                0 <= i < new_g.count && 0 <= j < new_g.count && (i >= old_g.count || j >= old_g.count)
                    ==> !#[trigger] new_g.bit(i, j),
        ensures
            new_g.edges() == old_g.edges(),
    {
        assert forall|e: Edge| new_g.edges().contains(e) implies old_g.edges().contains(e) by {
            let (a, b) = choose|a: int, b: int|
                0 <= a < new_g.count && 0 <= b < new_g.count && new_g.values()[a] == e.0
                    && new_g.values()[b] == e.1 && #[trigger] new_g.bit(a, b);
            assert(old_g.bit(a, b));
        }
        assert forall|e: Edge| old_g.edges().contains(e) implies new_g.edges().contains(e) by {
            let (a, b) = choose|a: int, b: int|
                0 <= a < old_g.count && 0 <= b < old_g.count && old_g.values()[a] == e.0
                    && old_g.values()[b] == e.1 && #[trigger] old_g.bit(a, b);
            assert(new_g.bit(a, b));
        }
        assert(new_g.edges() =~= old_g.edges());
    }

    proof fn lemma_no_successors(&self, pos: int, n: int)
        requires
            self.successors_before(pos, n) == 0,
        ensures
            forall|j: int| 0 <= j < n ==> !#[trigger] self.bit(pos, j),
        decreases n,
    {
        if n > 0 {
            self.lemma_no_successors(pos, n - 1);
        }
    }

    /// A blank graph whose matrix has room for `size` vertices.
    pub fn new(size: usize) -> (r: LGraph)
        ensures
            r.wf(),
            r.values() == Seq::<Token>::empty(),
            r.edges() == Set::<Edge>::empty(),
            r.capacity() == size,
    {
        let mut matrix: Vec<Vec<u8>> = Vec::new();
        let mut i: usize = 0;
        while i < size
            invariant
                i <= size,
                matrix@.len() == i,
                forall|k: int| 0 <= k < i ==> #[trigger] matrix@[k]@.len() == size,
                forall|k: int, j: int| 0 <= k < i && 0 <= j < size ==> matrix@[k]@[j] == 0,
            decreases size - i,
        {
            matrix.push(zero_row(size));
            i = i + 1;
        }
        let r = LGraph { matrix, vertices: Vec::new(), count: 0 };
        assert(r.values() =~= Seq::<Token>::empty());
        assert(r.edges() =~= Set::<Edge>::empty());
        r
    }

    /// The number of registered vertices.
    pub fn count(&self) -> (r: usize)
        requires
            self.wf(),
        ensures
            r == self.values().len(),
    {
        self.count
    }

    /// The value of the vertex at position `i`.
    pub fn value_at(&self, i: usize) -> (r: &String)
        requires
            self.wf(),
            i < self.values().len(),
        ensures
            r@ == self.values()[i as int],
    {
        &self.vertices[i].value
    }

    /// The number of rows and columns of the matrix.
    pub fn size(&self) -> (r: usize)
        requires
            self.wf(),
        ensures
            r == self.capacity(),
    {
        self.matrix.len()
    }

    /// Whether the matrix entry at row `i`, column `j` is set: whether the
    /// vertex at position `i` has an edge to the one at position `j`.
    pub fn has_edge(&self, i: usize, j: usize) -> (r: bool)
        requires
            self.wf(),
            i < self.capacity(),
            j < self.capacity(),
        ensures
            r == (i < self.values().len() && j < self.values().len() && self.edges().contains(
                (self.values()[i as int], self.values()[j as int]),
            )),
    {
        proof {
            if i < self.count && j < self.count {
                self.lemma_bit_edge(i as int, j as int);
            } else {
                assert(!self.bit(i as int, j as int));
            }
        }
        self.matrix[i][j] == 1
    }

    /// The position of the vertex whose value is `v`'s, if it is registered.
    pub fn find_vertex(&self, v: &LVert) -> (r: Option<usize>)
        requires
            self.wf(),
        ensures
            match r {
                Some(i) => i < self.values().len() && self.values()[i as int] == v.value@,
                None => !self.values().contains(v.value@),
            },
    {
        let mut i: usize = 0;
        while i < self.vertices.len()
            invariant
                self.wf(),
                i <= self.vertices@.len(),
                forall|k: int| 0 <= k < i ==> self.values()[k] != v.value@,
            decreases self.vertices@.len() - i,
        {
            if self.vertices[i].value == v.value {
                return Some(i);
            }
            i = i + 1;
        }
        None
    }

    /// Registers `v`'s value unless it is already present. Returns whether it
    /// was added. The matrix grows by one row and column when it is full.
    pub fn add_vertex(&mut self, v: &LVert) -> (added: bool)
        requires
            old(self).wf(),
            old(self).values().len() < usize::MAX,
        ensures
            final(self).wf(),
            final(self).values() == register_one(old(self).values(), v.value@),
            final(self).edges() == old(self).edges(),
            added == !old(self).values().contains(v.value@),
            final(self).capacity() >= old(self).capacity(),
    {
        match self.find_vertex(v) {
            Some(_) => false,
            None => {
                let ghost before = *self;
                if self.count == self.matrix.len() {
                    grow_matrix(&mut self.matrix);
                }
                self.vertices.push(LVert { value: v.value.clone() });
                self.count = self.count + 1;
                proof {
                    assert(self.values() =~= before.values().push(v.value@));
                    assert forall|i: int, j: int|
                        0 <= i < self.count && 0 <= j < self.count && (i >= before.count || j >= before.count)
                            implies !#[trigger] self.bit(i, j) by {
                        assert(!before.bit(i, j) || i >= before.matrix@.len() || j >= before.matrix@.len());
                    }
                    assert forall|i: int, j: int|
                        0 <= i < self.matrix@.len() && 0 <= j < self.matrix@.len() && (i >= self.count
                            || j >= self.count) implies !#[trigger] self.bit(i, j) by {
                        assert(!before.bit(i, j) || i >= before.matrix@.len() || j >= before.matrix@.len());
                    }
                    assert forall|i: int, j: int| 0 <= i < before.count && 0 <= j < before.count implies #[trigger] self.bit(i, j)
                        == before.bit(i, j) by {}
                    Self::lemma_edges_extend(&before, self);
                }
                true
            },
        }
    }

    /// Sets the edge from `v1`'s value to `v2`'s when both are registered, and
    /// leaves the graph as it is otherwise. Returns whether both were found.
    pub fn create_edge(&mut self, v1: &LVert, v2: &LVert) -> (created: bool)
        requires
            old(self).wf(),
        ensures
            final(self).wf(),
            final(self).values() == old(self).values(),
            final(self).edges() == with_edge(old(self).values(), old(self).edges(), v1.value@, v2.value@),
            created == (old(self).values().contains(v1.value@) && old(self).values().contains(v2.value@)),
            final(self).capacity() == old(self).capacity(),
    {
        let index1 = self.find_vertex(v1);
        let index2 = self.find_vertex(v2);
        match (index1, index2) {
            (Some(i), Some(j)) => {
                let ghost before = *self;
                let mut row: Vec<u8> = Vec::new();
                self.matrix.set_and_swap(i, &mut row);
                row.set(j, 1);
                self.matrix.set_and_swap(i, &mut row);
                proof {
                    assert(self.values() == before.values());
                    assert(self.bit(i as int, j as int));
                    assert forall|a: int| 0 <= a < self.matrix@.len() implies #[trigger] self.matrix@[a]@.len()
                        == self.matrix@.len() by {
                        assert(before.matrix@[a]@.len() == before.matrix@.len());
                    }
                    assert forall|a: int, b: int|
                        0 <= a < self.matrix@.len() && 0 <= b < self.matrix@.len() && (a >= self.count
                            || b >= self.count) implies !#[trigger] self.bit(a, b) by {
                        assert(!before.bit(a, b));
                    }
                    let pair = (before.values()[i as int], before.values()[j as int]);
                    assert forall|e: Edge| self.edges().contains(e) implies before.edges().insert(pair).contains(e) by {
                        let (a, b) = choose|a: int, b: int|
                            0 <= a < self.count && 0 <= b < self.count && self.values()[a] == e.0
                                && self.values()[b] == e.1 && #[trigger] self.bit(a, b);
                        if a != i || b != j {
                            assert(before.bit(a, b));
                        }
                    }
                    assert forall|e: Edge| before.edges().insert(pair).contains(e) implies self.edges().contains(e) by {
                        if e != pair {
                            let (a, b) = choose|a: int, b: int|
                                0 <= a < before.count && 0 <= b < before.count && before.values()[a] == e.0
                                    && before.values()[b] == e.1 && #[trigger] before.bit(a, b);
                            assert(self.bit(a, b));
                        }
                    }
                    assert(self.edges() =~= before.edges().insert(pair));
                    assert(before.values().contains(v1.value@));
                    assert(before.values().contains(v2.value@));
                }
                true
            },
            _ => false,
        }
    }

    /// The positions that the vertex at `pos` has an edge to, in increasing
    /// order.
    pub fn candidates(&self, pos: usize) -> (r: Vec<usize>)
        requires
            self.wf(),
            pos < self.values().len(),
        ensures
            forall|k: int| 0 <= k < r@.len() ==> #[trigger] r@[k] < self.values().len(),
            forall|k1: int, k2: int| 0 <= k1 < k2 < r@.len() ==> r@[k1] < r@[k2],
            forall|j: int|
                0 <= j < self.values().len() ==> (r@.contains(j as usize) <==> self.edges().contains(
                    (self.values()[pos as int], #[trigger] self.values()[j]),
                )),
    {
        let mut r: Vec<usize> = Vec::new();
        let mut j: usize = 0;
        while j < self.count
            invariant
                self.wf(),
                pos < self.count,
                j <= self.count,
                forall|k: int| 0 <= k < r@.len() ==> #[trigger] r@[k] < j,
                forall|k1: int, k2: int| 0 <= k1 < k2 < r@.len() ==> r@[k1] < r@[k2],
                forall|jj: int| 0 <= jj < j ==> (r@.contains(jj as usize) <==> #[trigger] self.bit(pos as int, jj)),
            decreases self.count - j,
        {
            let ghost before = r@;
            if self.matrix[pos][j] == 1 {
                r.push(j);
            }
            proof {
                assert forall|jj: int| 0 <= jj < j + 1 implies (r@.contains(jj as usize) <==> #[trigger] self.bit(
                    pos as int,
                    jj,
                )) by {
                    if jj < j {
                        if r@.contains(jj as usize) {
                            let k = choose|k: int| 0 <= k < r@.len() && r@[k] == jj as usize;
                            if k < before.len() {
                                assert(before[k] == r@[k]);
                            }
                            assert(before.contains(jj as usize));
                        }
                        if before.contains(jj as usize) {
                            let k = choose|k: int| 0 <= k < before.len() && before[k] == jj as usize;
                            assert(r@[k] == before[k]);
                        }
                    } else {
                        if r@.contains(jj as usize) {
                            let k = choose|k: int| 0 <= k < r@.len() && r@[k] == jj as usize;
                            if k < before.len() {
                                assert(before[k] == r@[k]);
                            }
                        }
                        if self.bit(pos as int, j as int) {
                            assert(r@[r@.len() - 1] == j);
                        }
                    }
                }
            }
            j = j + 1;
        }
        proof {
            assert forall|jj: int| 0 <= jj < self.count implies (r@.contains(jj as usize) <==> self.edges().contains(
                (self.values()[pos as int], #[trigger] self.values()[jj]),
            )) by {
                self.lemma_bit_edge(pos as int, jj);
            }
        }
        r
    }

    /// The number of successors of the vertex at `pos`.
    pub fn out_degree(&self, pos: usize) -> (r: usize)
        requires
            self.wf(),
            pos < self.values().len(),
        ensures
            r == self.successors_before(pos as int, self.values().len() as int),
    {
        let mut c: usize = 0;
        let mut j: usize = 0;
        while j < self.count
            invariant
                self.wf(),
                pos < self.count,
                j <= self.count,
                c == self.successors_before(pos as int, j as int),
                c <= j,
            decreases self.count - j,
        {
            if self.matrix[pos][j] == 1 {
                c = c + 1;
            }
            j = j + 1;
        }
        c
    }

    /// The successor of the vertex at `pos` that has `pick` successors before
    /// it in column order, if there is one.
    pub fn successor(&self, pos: usize, pick: usize) -> (r: Option<usize>)
        requires
            self.wf(),
            pos < self.values().len(),
        ensures
            match r {
                Some(j) => {
                    &&& j < self.values().len()
                    &&& self.edges().contains((self.values()[pos as int], self.values()[j as int]))
                    &&& self.successors_before(pos as int, j as int) == pick
                },
                None => self.successors_before(pos as int, self.values().len() as int) <= pick,
            },
    {
        let mut c: usize = 0;
        let mut j: usize = 0;
        while j < self.count
            invariant
                self.wf(),
                pos < self.count,
                j <= self.count,
                c == self.successors_before(pos as int, j as int),
                c <= pick,
            decreases self.count - j,
        {
            if self.matrix[pos][j] == 1 {
                if c == pick {
                    proof {
                        self.lemma_bit_edge(pos as int, j as int);
                    }
                    return Some(j);
                }
                c = c + 1;
            }
            j = j + 1;
        }
        None
    }

    /// Generates a sentence by a random walk from `start`'s vertex: the start
    /// value, then up to `length - 1` values, each drawn uniformly among the
    /// successors of the one before. The walk ends early at a vertex without
    /// successors; an unregistered start gives an empty sentence.
    pub fn traverse_sentence(&self, start: &LVert, length: usize) -> (r: Vec<String>)
        requires
            self.wf(),
            length >= 1,
        ensures
            !self.values().contains(start.value@) ==> r@.len() == 0,
            self.values().contains(start.value@) ==> exists|path: Seq<Token>|
                {
                    &&& is_walk(self.edges(), path, length as nat)
                    &&& path[0] == start.value@
                    &&& path.len() == r@.len()
                    &&& forall|k: int| 0 <= k < path.len() ==> #[trigger] r@[k]@ == path[k]
                },
    {
        let mut sentence: Vec<String> = Vec::new();
        match self.find_vertex(start) {
            None => {},
            Some(p) => {
                let mut pos = p;
                sentence.push(self.vertices[pos].value.clone());
                let ghost mut path: Seq<Token> = seq![self.values()[pos as int]];
                let mut steps: usize = 0;
                let mut stuck = false;
                while steps < length - 1 && !stuck
                    invariant
                        self.wf(),
                        pos < self.count,
                        steps < length,
                        path.len() == steps + 1,
                        path.len() == sentence@.len(),
                        path[0] == start.value@,
                        path.last() == self.values()[pos as int],
                        forall|k: int| 0 <= k < path.len() ==> #[trigger] sentence@[k]@ == path[k],
                        forall|k: int| 0 <= k < path.len() - 1 ==> self.edges().contains(#[trigger] pair_at(path, k)),
                        stuck ==> dead_end(self.edges(), path.last()),
                    decreases length - steps - (if stuck { 1int } else { 0int }),
                {
                    let degree = self.out_degree(pos);
                    if degree == 0 {
                        stuck = true;
                        proof {
                            self.lemma_no_successors(pos as int, self.count as int);
                            assert forall|w: Token| !self.edges().contains((path.last(), w)) by {
                                if self.edges().contains((path.last(), w)) {
                                    self.lemma_edge_ends((path.last(), w));
                                    let b = choose|b: int| 0 <= b < self.count && self.values()[b] == w;
                                    self.lemma_bit_edge(pos as int, b);
                                }
                            }
                        }
                    } else {
                        let pick = random_below(degree);
                        match self.successor(pos, pick) {
                            None => {
                                // pick < degree, so this arm is never taken
                                proof {
                                    assert(false);
                                }
                                stuck = true;
                            },
                            Some(next) => {
                                sentence.push(self.vertices[next].value.clone());
                                proof {
                                    let old_path = path;
                                    path = path.push(self.values()[next as int]);
                                    assert(pair_at(path, old_path.len() - 1) == (self.values()[pos as int], self.values()[next as int]));
                                    assert forall|k: int| 0 <= k < path.len() - 1 implies self.edges().contains(#[trigger] pair_at(path, k)) by {
                                        if k < old_path.len() - 1 {
                                            assert(pair_at(path, k) == pair_at(old_path, k));
                                        }
                                    }
                                }
                                pos = next;
                                steps = steps + 1;
                            },
                        }
                    }
                }
                proof {
                    assert(is_walk(self.edges(), path, length as nat));
                }
            },
        }
        sentence
    }

    /// Registers each of `vs` in order, skipping values already present.
    pub fn add_vertices(&mut self, vs: Vec<&LVert>)
        requires
            old(self).wf(),
            old(self).values().len() + vs@.len() <= usize::MAX,
        ensures
            final(self).wf(),
            final(self).values() == register_all(old(self).values(), vs@.map_values(|v: &LVert| v.value@)),
            final(self).edges() == old(self).edges(),
    {
        let ghost toks = vs@.map_values(|v: &LVert| v.value@);
        let mut k: usize = 0;
        while k < vs.len()
            invariant
                self.wf(),
                k <= vs@.len(),
                toks == vs@.map_values(|v: &LVert| v.value@),
                old(self).values().len() + vs@.len() <= usize::MAX,
                self.values() == register_all(old(self).values(), toks.take(k as int)),
                self.edges() == old(self).edges(),
            decreases vs@.len() - k,
        {
            proof {
                lemma_register_all(old(self).values(), toks.take(k as int));
            }
            self.add_vertex(vs[k]);
            proof {
                assert(toks.take(k + 1).drop_last() == toks.take(k as int));
            }
            k = k + 1;
        }
        proof {
            assert(toks.take(vs@.len() as int) == toks);
        }
    }

    /// Builds the graph of a word sequence: every word becomes a vertex, with
    /// repeats merged, and every word has an edge to the word after it.
    pub fn from_words(words: &Vec<LVert>) -> (r: LGraph)
        ensures
            r.wf(),
            r.values() == register_all(Seq::empty(), tokens_of(words@)),
            r.edges() == token_pairs(tokens_of(words@)),
    {
        let ghost toks = tokens_of(words@);
        let mut g = LGraph::new(words.len());
        let mut k: usize = 0;
        while k < words.len()
            invariant
                g.wf(),
                k <= words@.len(),
                toks == tokens_of(words@),
                g.values() == register_all(Seq::empty(), toks.take(k as int)),
                g.edges() == Set::<Edge>::empty(),
            decreases words@.len() - k,
        {
            proof {
                lemma_register_all(Seq::empty(), toks.take(k as int));
            }
            g.add_vertex(&words[k]);
            proof {
                assert(toks.take(k + 1).drop_last() == toks.take(k as int));
            }
            k = k + 1;
        }
        proof {
            assert(toks.take(words@.len() as int) == toks);
            lemma_register_all(Seq::empty(), toks);
        }
        let ghost vals = g.values();
        let last: usize = if words.len() == 0 {
            0
        } else {
            words.len() - 1
        };
        let mut i: usize = 0;
        while i < last
            invariant
                g.wf(),
                toks == tokens_of(words@),
                g.values() == vals,
                forall|m: int| 0 <= m < toks.len() ==> vals.contains(#[trigger] toks[m]),
                i <= last,
                last == if words@.len() == 0 { 0 } else { words@.len() - 1 },
                g.edges() == Set::new(|e: Edge| exists|m: int| 0 <= m < i && e == #[trigger] pair_at(toks, m)),
            decreases words@.len() - i,
        {
            let ghost before = g.edges();
            g.create_edge(&words[i], &words[i + 1]);
            proof {
                assert(vals.contains(toks[i as int]));
                assert(vals.contains(toks[i + 1]));
                let target = Set::new(|e: Edge| exists|m: int| 0 <= m < i + 1 && e == #[trigger] pair_at(toks, m));
                assert forall|e: Edge| target.contains(e) implies g.edges().contains(e) by {
                    let m = choose|m: int| 0 <= m < i + 1 && e == #[trigger] pair_at(toks, m);
                    if m < i {
                        assert(before.contains(e));
                    }
                }
                assert forall|e: Edge| g.edges().contains(e) implies target.contains(e) by {
                    if e != pair_at(toks, i as int) {
                        let m = choose|m: int| 0 <= m < i && e == #[trigger] pair_at(toks, m);
                        assert(0 <= m < i + 1);
                    }
                }
                assert(g.edges() =~= target);
            }
            i = i + 1;
        }
        proof {
            assert(g.edges() =~= token_pairs(toks));
        }
        g
    }
}

} // verus!
