//! Per-node information attached to program dependence graphs after they are
//! built, for later static-analysis queries.
use vstd::prelude::*;

verus! {

/// Information queried by static analysis for one graph node.  It carries no
/// content yet; it is attached so that later queries have a place to look.
#[derive(Hash, Clone, PartialEq, Eq, Debug, Structural)]
pub struct NodeInfo {}

impl NodeInfo {
    /// The textual form of the information; empty while it has no content.
    pub fn text(&self) -> (r: String)
        ensures
            r@ =~= Seq::<char>::empty(),
    {
        String::new()
    }
}

/// One node of a program dependence graph, as far as this pass reads it: the
/// slot for its analysis information.
pub struct Node {
    pub info: Option<NodeInfo>,
}

/// One program dependence graph.
pub struct Graph {
    pub nodes: Vec<Node>,
}

/// All graphs of one analyzed program.
pub struct Graphs {
    pub graphs: Vec<Graph>,
}

/// Initializes the analysis information of every node of every graph.
pub fn add_info(pdg: &mut Graphs)
    ensures
        final(pdg).graphs@.len() == old(pdg).graphs@.len(),
        forall|g: int|
            0 <= g < old(pdg).graphs@.len() ==> (#[trigger] final(pdg).graphs@[g]).nodes@.len()
                == old(pdg).graphs@[g].nodes@.len(),
        forall|g: int, n: int|
            0 <= g < old(pdg).graphs@.len() && 0 <= n < old(pdg).graphs@[g].nodes@.len()
                ==> (#[trigger] final(pdg).graphs@[g].nodes@[n]).info == Some(NodeInfo {}),
{
    let n_graphs = pdg.graphs.len();
    let mut g: usize = 0;
    while g < n_graphs
        invariant
            0 <= g <= n_graphs,
            n_graphs == pdg.graphs@.len(),
            pdg.graphs@.len() == old(pdg).graphs@.len(),
            forall|q: int|
                0 <= q < pdg.graphs@.len() ==> (#[trigger] pdg.graphs@[q]).nodes@.len() == old(
                    pdg,
                ).graphs@[q].nodes@.len(),
            forall|q: int, n: int|
                0 <= q < g && 0 <= n < pdg.graphs@[q].nodes@.len() ==> (#[trigger] pdg.graphs@[q].nodes@[n]).info == Some(NodeInfo {}),
        decreases n_graphs - g,
    {
        let n_nodes = pdg.graphs[g].nodes.len();
        let mut n: usize = 0;
        while n < n_nodes
            invariant
                0 <= g < pdg.graphs@.len(),
                0 <= n <= n_nodes,
                n_nodes == pdg.graphs@[g as int].nodes@.len(),
                pdg.graphs@.len() == old(pdg).graphs@.len(),
                forall|q: int|
                    0 <= q < pdg.graphs@.len() ==> (#[trigger] pdg.graphs@[q]).nodes@.len()
                        == old(pdg).graphs@[q].nodes@.len(),
                forall|q: int, m: int|
                    0 <= q < g && 0 <= m < pdg.graphs@[q].nodes@.len() ==> (#[trigger] pdg.graphs@[q].nodes@[m]).info == Some(NodeInfo {}),
                forall|m: int|
                    0 <= m < n ==> (#[trigger] pdg.graphs@[g as int].nodes@[m]).info == Some(
                        NodeInfo {},
                    ),
            decreases n_nodes - n,
        {
            let graph = &mut pdg.graphs[g];
            let node = &mut graph.nodes[n];
            node.info = Some(NodeInfo {});
            n = n + 1;
        }
        g = g + 1;
    }
}

} // verus!
