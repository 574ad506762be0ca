use vstd::prelude::*;

verus! {

/// An immutable set of adjacency lists, indexed by row index.
pub struct Graph {
    pub adjacency: Vec<Vec<usize>>,
}

impl View for Graph {
    type V = Seq<Seq<usize>>;

    open spec fn view(&self) -> Seq<Seq<usize>> {
        self.adjacency@.map_values(|l: Vec<usize>| l@)
    }
}

impl Graph {
    /// Wraps the given adjacency lists.
    pub fn new(adjacency: Vec<Vec<usize>>) -> (g: Graph)
        ensures
            g@ == adjacency@.map_values(|l: Vec<usize>| l@),
    {
        Graph { adjacency }
    }

    /// The stored neighbor list of `node`, or `None` past the last row.
    pub fn neighbors(&self, node: usize) -> (r: Option<&Vec<usize>>)
        ensures
            node < self@.len() ==> r.is_some() && r.unwrap()@ == self@[node as int],
            node >= self@.len() ==> r.is_none(),
    {
        if node < self.adjacency.len() {
            Some(&self.adjacency[node])
        } else {
            None
        }
    }
}

/// The first `k` stored neighbors of `node`; empty when `node` has no stored list.
pub fn recommend(graph: &Graph, node: usize, k: usize) -> (r: Vec<usize>)
    ensures
        node < graph@.len() ==> r@ == graph@[node as int].take(
            vstd::math::min(k as int, graph@[node as int].len() as int),
        ),
        node >= graph@.len() ==> r@.len() == 0,
{
    match graph.neighbors(node) {
        Some(list) => {
            let mut out: Vec<usize> = Vec::new();
            let mut t: usize = 0;
            while t < k && t < list.len()
                invariant
                    t <= list@.len(),
                    t <= k,
                    out@ == list@.take(t as int),
                decreases list@.len() - t,
            {
                out.push(list[t]);
                t = t + 1;
                proof {
                    assert(out@ =~= list@.take(t as int));
                }
            }
            out
        },
        None => Vec::new(),
    }
}

} // verus!
