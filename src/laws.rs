//! Properties that relate several operations of the graph, stated over the
//! model that their contracts use.
use crate::model::{dead_end, is_walk, register_all, register_one, with_edge, Edge, Token};
use vstd::prelude::*;

verus! {

/// Registering the same value any positive number of times has the effect of
/// registering it once; from an empty registry that leaves exactly one vertex.
pub proof fn lemma_register_repeated(vals: Seq<Token>, t: Token, n: nat)
    requires
        n >= 1,
    ensures
        register_all(vals, Seq::new(n, |i: int| t)) == register_one(vals, t),
        register_all(Seq::empty(), Seq::new(n, |i: int| t)) == seq![t],
    decreases n,
{
    let toks = Seq::new(n, |i: int| t);
    assert(toks.last() == t);
    assert(register_all(vals, toks) == register_one(register_all(vals, toks.drop_last()), t));
    assert(register_all(Seq::empty(), toks) == register_one(register_all(Seq::empty(), toks.drop_last()), t));
    if n == 1 {
        assert(toks.drop_last() =~= Seq::<Token>::empty());
        assert(register_all(vals, toks.drop_last()) == vals);
        assert(register_all(Seq::empty(), toks.drop_last()) == Seq::<Token>::empty());
    } else {
        lemma_register_repeated(vals, t, (n - 1) as nat);
        lemma_register_repeated(Seq::empty(), t, (n - 1) as nat);
        assert(toks.drop_last() =~= Seq::new((n - 1) as nat, |i: int| t));
        assert(register_all(vals, toks.drop_last()) == register_one(vals, t));
        assert(register_all(Seq::empty(), toks.drop_last()) == seq![t]);
        assert(register_one(vals, t).contains(t)) by {
            if !vals.contains(t) {
                assert(register_one(vals, t)[vals.len() as int] == t);
            }
        }
        assert(seq![t].contains(t)) by {
            assert(seq![t][0] == t);
        }
    }
    assert(register_one(Seq::<Token>::empty(), t) =~= seq![t]);
}

/// Asking for the same edge twice leaves the same edges as asking once.
pub proof fn lemma_edge_idempotent(vals: Seq<Token>, edges: Set<Edge>, a: Token, b: Token)
    ensures
        with_edge(vals, with_edge(vals, edges, a, b), a, b) == with_edge(vals, edges, a, b),
{
    if vals.contains(a) && vals.contains(b) {
        assert(edges.insert((a, b)).insert((a, b)) =~= edges.insert((a, b)));
    }
}

/// An edge with an unregistered endpoint changes nothing.
pub proof fn lemma_unknown_endpoint(vals: Seq<Token>, edges: Set<Edge>, a: Token, b: Token)
    requires
        !vals.contains(a) || !vals.contains(b),
    ensures
        with_edge(vals, edges, a, b) == edges,
{
}

/// Where every vertex that a walk reaches from its start has an outgoing edge,
/// the walk has the full target length.
pub proof fn lemma_full_length(edges: Set<Edge>, path: Seq<Token>, len: nat)
    requires
        is_walk(edges, path, len),
        forall|k: int| 0 <= k < path.len() ==> !dead_end(edges, #[trigger] path[k]),
    ensures
        path.len() == len,
{
    assert(!dead_end(edges, path[path.len() - 1]));
}

} // verus!
