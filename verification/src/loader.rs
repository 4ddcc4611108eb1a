//! Ontology-driven graph registration: the names projected edge graphs
//! are registered under, and their registration in the catalog.
//!
//! Projecting an edge definition's source table into a graph is the query
//! engine's work; each graph it builds is registered here, in
//! edge-definition order.

use std::sync::Arc;

use vstd::prelude::*;

use crate::catalog::GraphCatalog;
use crate::csr::CsrGraph;
use crate::ontology::{EdgeDefinition, Ontology};

verus! {

/// The catalog name of the graph projected from `edge`:
/// `"<ontology name>.<edge label>"`, or the bare label for an unnamed
/// ontology.
pub open spec fn graph_name_of(ontology_name: Seq<char>, label: Seq<char>) -> Seq<char> {
    if ontology_name.len() == 0 {
        label
    } else {
        ontology_name + "."@ + label
    }
}

/// Returns the catalog name a projected edge graph is registered under.
pub fn graph_name(ontology: &Ontology, edge: &EdgeDefinition) -> (r: String)
    ensures
        r@ == graph_name_of(ontology.ontology.name@, edge.label@),
{
    let name = ontology.name();
    if name.unicode_len() == 0 {
        edge.label.clone()
    } else {
        let mut s = String::from_str(name);
        s.append(".");
        s.append(edge.label.as_str());
        proof {
            reveal_strlit(".");
        }
        s
    }
}

/// Registers the graph projected from `edge` under its name and returns
/// the name.
pub fn register_edge_graph(
    catalog: &mut GraphCatalog,
    ontology: &Ontology,
    edge: &EdgeDefinition,
    graph: Arc<CsrGraph>,
) -> (r: String)
    requires
        old(catalog).wf(),
    ensures
        final(catalog).wf(),
        r@ == graph_name_of(ontology.ontology.name@, edge.label@),
        forall|k: Seq<char>|
            #[trigger] final(catalog).lookup(k) == if k == r@ {
                Some(*graph)
            } else {
                old(catalog).lookup(k)
            },
{
    let name = graph_name(ontology, edge);
    let key = name.clone();
    let _previous = catalog.register(key, graph);
    name
}

} // verus!
