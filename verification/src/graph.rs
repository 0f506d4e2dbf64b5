//! The part of the code graph that coverage is bound to.
use vstd::prelude::*;

verus! {

/// A symbol of the code graph with the lines it spans, both ends included.
#[derive(Debug)]
pub struct Node {
    /// Canonical id, `{file_path}:{kind}:{name}`.
    pub id: String,
    pub source_file: String,
    pub start_line: usize,
    pub end_line: usize,
}

/// What a [`Node`] says.
pub struct Symbol {
    pub id: Seq<char>,
    pub source_file: Seq<char>,
    pub start_line: nat,
    pub end_line: nat,
}

impl View for Node {
    type V = Symbol;

    open spec fn view(&self) -> Symbol {
        Symbol {
            id: self.id@,
            source_file: self.source_file@,
            start_line: self.start_line as nat,
            end_line: self.end_line as nat,
        }
    }
}

impl Clone for Node {
    fn clone(&self) -> (node: Self)
        ensures
            node@ == self@,
    {
        Node {
            id: self.id.clone(),
            source_file: self.source_file.clone(),
            start_line: self.start_line,
            end_line: self.end_line,
        }
    }
}

/// The symbols that the nodes stand for.
pub open spec fn symbols(nodes: Seq<Node>) -> Seq<Symbol> {
    nodes.map_values(|n: Node| n@)
}

/// A code graph: its nodes, and how many edges it has.
#[derive(Debug)]
pub struct GraphOutput {
    pub nodes: Vec<Node>,
    pub edges: usize,
}

/// What a [`GraphOutput`] says.
pub struct CodeGraph {
    pub nodes: Seq<Symbol>,
    pub edges: nat,
}

impl View for GraphOutput {
    type V = CodeGraph;

    open spec fn view(&self) -> CodeGraph {
        CodeGraph { nodes: symbols(self.nodes@), edges: self.edges as nat }
    }
}

impl Clone for GraphOutput {
    fn clone(&self) -> (graph: Self)
        ensures
            graph@ == self@,
    {
        let mut nodes: Vec<Node> = Vec::new();
        for i in 0..self.nodes.len()
            invariant
                symbols(nodes@) == symbols(self.nodes@).take(i as int),
        {
            let ghost before = nodes@;
            nodes.push(self.nodes[i].clone());
            assert(symbols(nodes@) =~= symbols(before).push(nodes@.last()@));
            assert(symbols(self.nodes@).take(i + 1) =~= symbols(self.nodes@).take(i as int).push(
                self.nodes@[i as int]@,
            ));
        }
        assert(symbols(nodes@) =~= symbols(self.nodes@));
        GraphOutput { nodes, edges: self.edges }
    }
}

/// A node says what its fields say, and a graph what its nodes say, in their order.
pub proof fn a_graph_says_what_its_fields_say(graph: GraphOutput)
    ensures
        graph@.edges == graph.edges,
        graph@.nodes.len() == graph.nodes@.len(),
        forall|i: int|
            0 <= i < graph.nodes@.len() ==> (#[trigger] graph@.nodes[i]).id
                == graph.nodes@[i].id@ && graph@.nodes[i].source_file
                == graph.nodes@[i].source_file@ && graph@.nodes[i].start_line
                == graph.nodes@[i].start_line && graph@.nodes[i].end_line
                == graph.nodes@[i].end_line,
{
}

} // verus!
