use bitfields::info::{add_info, Graph, Graphs, Node, NodeInfo};

#[test]
fn add_info_sets_every_node() {
    let mut pdg = Graphs {
        graphs: vec![
            Graph { nodes: vec![Node { info: None }, Node { info: None }] },
            Graph { nodes: vec![Node { info: None }] },
        ],
    };
    add_info(&mut pdg);
    assert_eq!(pdg.graphs.len(), 2);
    for g in &pdg.graphs {
        for n in &g.nodes {
            assert_eq!(n.info, Some(NodeInfo {}));
        }
    }
}

#[test]
fn node_info_text_is_empty() {
    let info = NodeInfo {};
    assert_eq!(info.text(), String::new());
}
