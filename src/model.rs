//! Mathematical model of the graph: vertex values in registration order and a
//! set of directed edges between values.
use vstd::prelude::*;

verus! {

/// A token as the model sees it.
pub type Token = Seq<char>;

/// A directed edge between two token values.
pub type Edge = (Seq<char>, Seq<char>);

/// Registration of one value: appended unless it is already present.
pub open spec fn register_one(vals: Seq<Token>, t: Token) -> Seq<Token> {
    if vals.contains(t) {
        vals
    } else {
        vals.push(t)
    }
}

/// Registration of a whole token sequence, in order.
pub open spec fn register_all(vals: Seq<Token>, toks: Seq<Token>) -> Seq<Token>
    decreases toks.len(),
{
    if toks.len() == 0 {
        vals
    } else {
        register_one(register_all(vals, toks.drop_last()), toks.last())
    }
}

/// The edge set after asking for an edge from `a` to `b`: added when both
/// endpoints are registered, unchanged otherwise.
pub open spec fn with_edge(vals: Seq<Token>, edges: Set<Edge>, a: Token, b: Token) -> Set<Edge> {
    if vals.contains(a) && vals.contains(b) {
        edges.insert((a, b))
    } else {
        edges
    }
}

/// The tokens at positions `i` and `i + 1`, as an edge.
pub open spec fn pair_at(toks: Seq<Token>, i: int) -> Edge {
    (toks[i], toks[i + 1])
}

/// Every pair of consecutive tokens, as an edge.
pub open spec fn token_pairs(toks: Seq<Token>) -> Set<Edge> {
    Set::new(|e: Edge| exists|i: int| 0 <= i < toks.len() - 1 && e == #[trigger] pair_at(toks, i))
}

/// No value has two positions.
pub open spec fn distinct(vals: Seq<Token>) -> bool {
    forall|i: int, j: int| 0 <= i < vals.len() && 0 <= j < vals.len() && i != j ==> vals[i] != vals[j]
}

/// `v` has no outgoing edge.
pub open spec fn dead_end(edges: Set<Edge>, v: Token) -> bool {
    forall|w: Token| !edges.contains((v, w))
}

/// `path` is a walk that a sentence of target length `len` may follow: it is
/// non-empty, no longer than `len`, follows an edge at every step, and stops
/// short only at a dead end.
pub open spec fn is_walk(edges: Set<Edge>, path: Seq<Token>, len: nat) -> bool {
    &&& 1 <= path.len() <= len
    &&& forall|k: int| 0 <= k < path.len() - 1 ==> edges.contains(#[trigger] pair_at(path, k))
    &&& path.len() < len ==> dead_end(edges, path.last())
}

/// Registration keeps what was there and admits every token, and adds no more
/// values than there are tokens.
pub proof fn lemma_register_all(vals: Seq<Token>, toks: Seq<Token>)
    ensures
        forall|k: int| 0 <= k < vals.len() ==> #[trigger] register_all(vals, toks)[k] == vals[k],
        vals.len() <= register_all(vals, toks).len() <= vals.len() + toks.len(),
        forall|k: int| 0 <= k < toks.len() ==> register_all(vals, toks).contains(#[trigger] toks[k]),
    decreases toks.len(),
{
    if toks.len() > 0 {
        let prefix = toks.drop_last();
        lemma_register_all(vals, prefix);
        let before = register_all(vals, prefix);
        let after = register_all(vals, toks);
        assert(after == register_one(before, toks.last()));
        assert forall|k: int| 0 <= k < before.len() implies #[trigger] after[k] == before[k] by {}
        assert forall|k: int| 0 <= k < toks.len() implies after.contains(#[trigger] toks[k]) by {
            if k < toks.len() - 1 {
                assert(prefix[k] == toks[k]);
                let i = choose|i: int| 0 <= i < before.len() && before[i] == toks[k];
                assert(after[i] == toks[k]);
            } else if before.contains(toks.last()) {
            } else {
                assert(after[after.len() - 1] == toks.last());
            }
        }
    }
}

} // verus!
